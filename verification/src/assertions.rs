//! Small verified helpers that tests drive end-to-end flows through: each
//! reopens the repository from disk the way a separate process would.

use vstd::prelude::*;
use crate::error::BakareError;
use crate::fs::Fs;
use crate::index::{spec_index_path, item_map_of, key_of_path, view_wf, spec_fresh_index_view};
use crate::codec::{spec_parse_index, spec_encode_index, view_fits, lemma_parse_index_of_encode, lemma_pow256_values};
use crate::lock::spec_any_lock;
use crate::paths::{spec_is_absolute, spec_is_within, spec_join};
use crate::repository::{Repository, spec_data_prefix, repo_item_model_of, lemma_repo_index_maps};
use crate::repository_item::RepositoryItem;
use crate::restore::{self, spec_target_file};

verus! {

/// Reopens the repository and hands out the newest revision of the given
/// source path, as a separate reader process would see it.  The revision
/// handed out is exactly the one the stored document records; success is
/// owed whenever the document is loadable and records the path.
pub fn newest_item(fs: &mut Fs, repository_path: &Vec<u8>, source_file_full_path: &Vec<u8>) -> (r:
    Result<RepositoryItem, BakareError>)
    requires
        old(fs).wf(),
    ensures
        final(fs).wf(),
        old(fs)@.contains_key(spec_index_path(repository_path@)) ==> final(fs)@ == old(fs)@,
        forall|k: Seq<u8>|
            #![trigger final(fs)@.contains_key(k)]
            k != spec_index_path(repository_path@) ==> (final(fs)@.contains_key(k) <==> old(
                fs,
            )@.contains_key(k)) && (old(fs)@.contains_key(k) ==> final(fs)@[k] == old(fs)@[k]),
        match r {
            Ok(it) => spec_is_absolute(repository_path@) && spec_is_absolute(
                source_file_full_path@,
            ) && old(fs)@.contains_key(spec_index_path(repository_path@)) && (match
                spec_parse_index(old(fs)@[spec_index_path(repository_path@)]) {
                Some(v) => view_wf(v) && item_map_of(v.newest, key_of_path()).contains_key(
                    source_file_full_path@,
                ) && it@ == repo_item_model_of(
                    repository_path@,
                    item_map_of(v.newest, key_of_path())[source_file_full_path@],
                ),
                None => false,
            }),
            Err(e) => (e == BakareError::RepositoryPathNotAbsolute && (!spec_is_absolute(
                repository_path@,
            ) || !spec_is_absolute(source_file_full_path@))) || (e == BakareError::LockTimeout
                && spec_any_lock(old(fs)@, repository_path@)) || (e
                == BakareError::IndexLoadingError && old(fs)@.contains_key(
                spec_index_path(repository_path@),
            ) && (match spec_parse_index(old(fs)@[spec_index_path(repository_path@)]) {
                None => true,
                Some(v) => !view_wf(v),
            })) || (e == BakareError::CorruptedRepoNoFile && (old(fs)@.contains_key(
                spec_index_path(repository_path@),
            ) ==> (match spec_parse_index(old(fs)@[spec_index_path(repository_path@)]) {
                Some(v) => !item_map_of(v.newest, key_of_path()).contains_key(
                    source_file_full_path@,
                ),
                None => false,
            }))),
        },
{
    let ghost root = repository_path@;
    let ghost ip = spec_index_path(root);
    let repository = match Repository::open(fs, repository_path) {
        Ok(rp) => rp,
        Err(e) => {
            return Err(e);
        },
    };
    proof {
        lemma_repo_index_maps(repository);
        if !old(fs)@.contains_key(ip) {
            crate::index::lemma_item_map_membership(
                repository.index_view().newest,
                key_of_path(),
            );
            assert(repository.newest_map() =~= Map::<
                Seq<u8>,
                crate::index_item::ItemModel,
            >::empty()) by {
                if repository.newest_map().dom().len() != 0 || exists|k: Seq<u8>|
                    repository.newest_map().contains_key(k) {
                    if exists|k: Seq<u8>| repository.newest_map().contains_key(k) {
                        let k = choose|k: Seq<u8>| repository.newest_map().contains_key(k);
                        let j = choose|j: int|
                            0 <= j < repository.index_view().newest.len() && key_of_path()(
                                repository.index_view().newest[j],
                            ) == k;
                    }
                }
            }
        }
    }
    match repository.newest_item_by_source_path(source_file_full_path) {
        Ok(Some(it)) => {
            proof {
                if !old(fs)@.contains_key(ip) {
                    assert(repository.newest_map().contains_key(source_file_full_path@));
                    assert(false);
                }
            }
            Ok(it)
        },
        Ok(None) => Err(BakareError::CorruptedRepoNoFile),
        Err(e) => Err(e),
    }
}

/// What must hold for a reload-and-restore pass to be owed success: both
/// roots absolute, no lockfile, and any stored document loadable with
/// every recorded object present under an absolute source path.
pub open spec fn reloaded_restore_ready(
    m0: Map<Seq<u8>, Seq<u8>>,
    root: Seq<u8>,
    target: Seq<u8>,
) -> bool {
    &&& spec_is_absolute(root)
    &&& spec_is_absolute(target)
    &&& !spec_any_lock(m0, root)
    &&& (m0.contains_key(spec_index_path(root)) ==> (match spec_parse_index(
        m0[spec_index_path(root)],
    ) {
        Some(v) => view_wf(v) && (forall|j: int|
            0 <= j < v.newest.len() ==> m0.contains_key(
                #[trigger] spec_join(root, v.newest[j].relative_path),
            ) && spec_is_absolute(v.newest[j].original_source_path)),
        None => false,
    }))
}

/// Reopens the repository in a fresh instance and restores every newest
/// revision under the target, as a separate restoring process would.
/// When the world is ready (see [`reloaded_restore_ready`]) the pass
/// succeeds and every revision the stored document records stands at its
/// target file with the stored object's bytes.
pub fn restore_all_from_reloaded_repository(
    fs: &mut Fs,
    repository_path: &Vec<u8>,
    restore_target: &Vec<u8>,
) -> (r: Result<(), BakareError>)
    requires
        old(fs).wf(),
        !spec_is_within(restore_target@, repository_path@),
        !spec_is_within(repository_path@, restore_target@),
    ensures
        final(fs).wf(),
        forall|k: Seq<u8>|
            #![trigger final(fs)@.contains_key(k)]
            !spec_is_within(k, restore_target@) && k != spec_index_path(repository_path@) ==> (
            final(fs)@.contains_key(k) <==> old(fs)@.contains_key(k)),
        forall|k: Seq<u8>|
            #![trigger final(fs)@[k]]
            !spec_is_within(k, restore_target@) && k != spec_index_path(repository_path@) && old(
                fs,
            )@.contains_key(k) ==> final(fs)@[k] == old(fs)@[k],
        reloaded_restore_ready(old(fs)@, repository_path@, restore_target@) ==> r is Ok && (
        old(fs)@.contains_key(spec_index_path(repository_path@)) ==> (match spec_parse_index(
            old(fs)@[spec_index_path(repository_path@)],
        ) {
            Some(v) => forall|j: int|
                0 <= j < v.newest.len() ==> final(fs)@.contains_key(
                    #[trigger] spec_target_file(restore_target@, v.newest[j].original_source_path),
                ) && final(fs)@[spec_target_file(
                    restore_target@,
                    v.newest[j].original_source_path,
                )] == old(fs)@[spec_join(repository_path@, v.newest[j].relative_path)],
            None => false,
        })),
{
    let ghost root = repository_path@;
    let ghost target = restore_target@;
    let ghost m0 = fs@;
    let ghost ip = spec_index_path(root);
    let ghost ready = reloaded_restore_ready(m0, root, target);
    let mut repository = match Repository::open(fs, repository_path) {
        Ok(rp) => rp,
        Err(e) => {
            proof {
                if ready {
                    assert(false);
                }
            }
            return Err(e);
        },
    };
    let ghost m1 = fs@;
    let ghost view1 = repository.index_view();
    proof {
        if ready {
            lemma_repo_index_maps(repository);
            if m0.contains_key(ip) {
                assert(m1 == m0);
                assert(spec_parse_index(m0[ip]) == Some(view1));
            } else {
                // A fresh root was initialized with the empty document.
                assert(view1.newest.len() == 0);
                assert(m1 == m0.insert(ip, spec_encode_index(view1)));
                lemma_pow256_values();
                assert(view_fits(view1)) by {
                    assert(view1.by_id.len() == 0);
                }
                lemma_parse_index_of_encode(view1);
            }
            assert(!spec_any_lock(m1, root)) by {
                if spec_any_lock(m1, root) {
                    let k = choose|k: Seq<u8>|
                        m1.contains_key(k) && crate::lock::spec_is_lock_path(k, root);
                    if k == ip {
                        crate::index::lemma_index_path_not_lock(root, k);
                    } else {
                        assert(m0.contains_key(k));
                    }
                }
            }
            assert(crate::backup::disk_doc_ok(m1, root, repository)) by {
                assert(spec_parse_index(m1[ip]) == Some(view1));
                assert(view_wf(view1)) by {
                    lemma_repo_index_maps(repository);
                }
            }
            assert(crate::restore::restore_ready(m1, repository, root, target)) by {
                if m0.contains_key(ip) {
                    assert forall|j: int|
                        0 <= j < repository.index_view().newest.len() implies m1.contains_key(
                        #[trigger] spec_join(root, repository.index_view().newest[j].relative_path),
                    ) && spec_is_absolute(
                        repository.index_view().newest[j].original_source_path,
                    ) by {
                        assert(m0.contains_key(spec_join(root, view1.newest[j].relative_path)));
                    }
                }
            }
        }
    }
    let engine = match restore::Engine::new(&mut repository, restore_target) {
        Ok(e) => e,
        Err(e) => {
            proof {
                assert(false);
            }
            return Err(e);
        },
    };
    let ghost repo_pre = repository;
    let result = engine.restore_all(fs, &mut repository);
    proof {
        assert forall|k: Seq<u8>|
            !spec_is_within(k, target) && k != ip implies (#[trigger] fs@.contains_key(k)
            <==> m0.contains_key(k)) by {
            assert(!spec_is_within(k, engine.spec_target()) && k != spec_index_path(
                repo_pre.spec_root(),
            ));
            assert(fs@.contains_key(k) <==> m1.contains_key(k));
            assert(m1.contains_key(k) <==> m0.contains_key(k));
        }
        assert forall|k: Seq<u8>|
            #![trigger fs@[k]]
            !spec_is_within(k, target) && k != ip && m0.contains_key(k) implies fs@[k]
            == m0[k] by {
            assert(!spec_is_within(k, engine.spec_target()) && k != spec_index_path(
                repo_pre.spec_root(),
            ));
            assert(fs@.contains_key(k) <==> m1.contains_key(k));
            assert(m1.contains_key(k) <==> m0.contains_key(k));
            assert(fs@[k] == m1[k]);
            assert(m1[k] == m0[k]);
        }
    }
    match result {
        Ok(()) => {
            proof {
                if ready {
                    assert(crate::restore::restore_done(m1, fs@, repo_pre, root, target));
                    if m0.contains_key(ip) {
                        let v = spec_parse_index(m0[ip])->Some_0;
                        assert forall|j: int|
                            0 <= j < v.newest.len() implies fs@.contains_key(
                            #[trigger] spec_target_file(target, v.newest[j].original_source_path),
                        ) && fs@[spec_target_file(target, v.newest[j].original_source_path)]
                            == m0[spec_join(root, v.newest[j].relative_path)] by {
                            assert(repo_pre.index_view() == v);
                        }
                    }
                }
            }
            Ok(())
        },
        Err(e) => {
            proof {
                if ready {
                    assert(false);
                }
            }
            Err(e)
        },
    }
}

/// The total size of the objects stored under the repository's data
/// directory.
pub fn data_weight(fs: &Fs, repository_path: &Vec<u8>) -> (r: Result<u64, BakareError>)
    ensures
        match r {
            Ok(w) => w as int == if fs.spec_weight(spec_data_prefix(repository_path@))
                <= u64::MAX {
                fs.spec_weight(spec_data_prefix(repository_path@)) as int
            } else {
                u64::MAX as int
            },
            Err(_) => false,
        },
{
    let name: Vec<u8> = vec![100u8, 97u8, 116u8, 97u8];
    let mut prefix = crate::paths::join(repository_path, &name);
    prefix.push(47u8);
    proof {
        assert(prefix@ =~= spec_data_prefix(repository_path@));
        assert(name@ =~= crate::repository::data_name());
    }
    Ok(fs.weight_under(&prefix))
}

} // verus!
