//! The engine's laws: round trips, idempotence, deduplication, version
//! monotony and writer convergence, each stated over the public contracts
//! and proved once and for all.

use vstd::prelude::*;
use crate::error::BakareError;
use crate::fs::Fs;
use crate::lock::{Lock, spec_any_lock};
use crate::index::{
    spec_index_path, merge_newest_maps, merge_id_maps, remembered_version, vnext, view_wf,
};
use crate::index_item::ItemModel;
use crate::item_id::digest_of;
use crate::codec::{spec_encode_index, view_fits, lemma_parse_index_of_encode};
use crate::paths::{sep, spec_is_absolute, spec_is_within, spec_starts_with, lemma_within_two_dirs};
use crate::backup::{self, src_file, dig_of, backup_ready, backup_done, disk_doc_ok};
use crate::restore::{self, spec_target_file, restore_ready, restore_done};
use crate::index::{key_of_path, lemma_item_map_membership, lemma_item_map_value};
use crate::codec::{spec_parse_index, lemma_pow256_values};
use crate::repository::{
    Repository, spec_rel_of, spec_object_path, spec_data_prefix, lemma_repo_index_maps,
    lemma_object_region,
};

verus! {

/// Law: taking the repository lock and releasing it leaves the filesystem
/// exactly as it was — in particular, no lockfile stays behind.
pub fn lock_then_release_leaves_no_lockfiles(fs: &mut Fs, directory: &Vec<u8>) -> (r: Result<
    (),
    BakareError,
>)
    requires
        old(fs).wf(),
    ensures
        final(fs).wf(),
        final(fs)@ == old(fs)@,
        r is Ok <==> !spec_any_lock(old(fs)@, directory@),
{
    let the_lock = match Lock::lock(fs, directory) {
        Ok(l) => l,
        Err(_) => {
            return Err(BakareError::LockTimeout);
        },
    };
    the_lock.release(fs);
    proof {
        assert(final(fs)@ =~= old(fs)@);
    }
    Ok(())
}

/// Law: saving an index that already stands unchanged on disk changes
/// none of its items; only the document version is bumped once more.
pub fn saving_unchanged_index_bumps_only_version(fs: &mut Fs, repository: &mut Repository) -> (r:
    Result<(), BakareError>)
    requires
        old(repository).wf(),
        old(fs).wf(),
        !spec_any_lock(old(fs)@, old(repository).spec_root()),
        old(fs)@.contains_key(spec_index_path(old(repository).spec_root())),
        old(fs)@[spec_index_path(old(repository).spec_root())] == spec_encode_index(
            old(repository).index_view(),
        ),
        view_fits(old(repository).index_view()),
    ensures
        final(repository).wf(),
        final(fs).wf(),
        r is Ok,
        final(repository).newest_map() == old(repository).newest_map(),
        final(repository).id_map() == old(repository).id_map(),
        final(repository).index_view().version == vnext(old(repository).index_view().version),
        final(fs)@ == old(fs)@.insert(
            spec_index_path(old(repository).spec_root()),
            spec_encode_index(final(repository).index_view()),
        ),
{
    let ghost root = old(repository).spec_root();
    let ghost v0 = old(repository).index_view();
    proof {
        lemma_repo_index_maps(*old(repository));
        lemma_parse_index_of_encode(v0);
    }
    match repository.save_index(fs) {
        Ok(()) => {
            proof {
                lemma_repo_index_maps(*old(repository));
                lemma_repo_index_maps(*repository);
                assert(final(repository).newest_map() =~= old(repository).newest_map()) by {
                    assert(final(repository).newest_map() == merge_newest_maps(
                        old(repository).newest_map(),
                        old(repository).newest_map(),
                    ));
                }
                assert(final(repository).id_map() =~= old(repository).id_map()) by {
                    assert(final(repository).id_map() == merge_id_maps(
                        old(repository).id_map(),
                        old(repository).id_map(),
                    ));
                }
            }
            Ok(())
        },
        Err(e) => {
            proof {
                assert(false);
            }
            Err(e)
        },
    }
}

/// Law: storing content whose fingerprint is already stored adds nothing
/// to the object store — backing identical bytes up twice costs the data
/// of one copy.
pub fn storing_equal_content_twice_adds_it_once(
    fs: &mut Fs,
    repository: &mut Repository,
    first_path: &Vec<u8>,
    second_path: &Vec<u8>,
) -> (r: Result<(), BakareError>)
    requires
        old(repository).wf(),
        old(fs).wf(),
        spec_is_absolute(first_path@),
        spec_is_absolute(second_path@),
        !spec_is_within(first_path@, old(repository).spec_root()),
        !spec_is_within(second_path@, old(repository).spec_root()),
        old(fs)@.contains_key(first_path@),
        old(fs)@.contains_key(second_path@),
        old(fs)@[first_path@] == old(fs)@[second_path@],
    ensures
        final(repository).wf(),
        final(fs).wf(),
        r is Ok,
        final(fs).spec_weight(spec_data_prefix(old(repository).spec_root())) == old(
            fs,
        ).spec_weight(spec_data_prefix(old(repository).spec_root())) + (if old(fs)@.contains_key(
            spec_object_path(old(repository).spec_root(), digest_of(old(fs)@[first_path@])),
        ) {
            0
        } else {
            old(fs)@[first_path@].len() as int
        }),
{
    let ghost root = old(repository).spec_root();
    let ghost c = old(fs)@[first_path@];
    let ghost obj = spec_object_path(root, digest_of(c));
    proof {
        lemma_object_region(root, digest_of(c));
        assert(first_path@ != obj && second_path@ != obj) by {
            assert(spec_is_within(obj, root));
        }
    }
    match repository.store(fs, first_path) {
        Ok(()) => {},
        Err(_) => {
            proof {
                assert(false);
            }
            return Err(BakareError::DirectoryNotFile);
        },
    }
    proof {
        lemma_object_region(root, digest_of(c));
        assert(fs@.contains_key(second_path@) && fs@[second_path@] == c);
        assert(fs@.contains_key(obj));
    }
    match repository.store(fs, second_path) {
        Ok(()) => {},
        Err(_) => {
            proof {
                assert(false);
            }
            return Err(BakareError::DirectoryNotFile);
        },
    }
    Ok(())
}

/// Law: backing the same source path up again gives it a strictly greater
/// version, and the revision that introduced the earlier fingerprint
/// keeps its version.
pub fn storing_same_path_again_increases_version(
    fs: &mut Fs,
    repository: &mut Repository,
    source_path: &Vec<u8>,
) -> (r: Result<(), BakareError>)
    requires
        old(repository).wf(),
        old(fs).wf(),
        spec_is_absolute(source_path@),
        !spec_is_within(source_path@, old(repository).spec_root()),
        old(fs)@.contains_key(source_path@),
        remembered_version(old(repository).newest_map(), source_path@) < u128::MAX,
    ensures
        final(repository).wf(),
        final(fs).wf(),
        r is Ok,
        final(repository).newest_map().contains_key(source_path@),
        final(repository).newest_map()[source_path@].version > remembered_version(
            old(repository).newest_map(),
            source_path@,
        ),
        final(repository).newest_map()[source_path@].version == vnext(
            remembered_version(old(repository).newest_map(), source_path@),
        ),
{
    let ghost root = old(repository).spec_root();
    let ghost a0 = old(repository).newest_map();
    let ghost c = old(fs)@[source_path@];
    let ghost v1 = remembered_version(a0, source_path@);
    proof {
        lemma_object_region(root, digest_of(c));
        assert(source_path@ != spec_object_path(root, digest_of(c))) by {
            assert(spec_is_within(spec_object_path(root, digest_of(c)), root));
        }
    }
    match repository.store(fs, source_path) {
        Ok(()) => {},
        Err(_) => {
            proof {
                assert(false);
            }
            return Err(BakareError::DirectoryNotFile);
        },
    }
    proof {
        assert(repository.newest_map()[source_path@].version == v1);
        assert(fs@.contains_key(source_path@) && fs@[source_path@] == c);
    }
    match repository.store(fs, source_path) {
        Ok(()) => {},
        Err(_) => {
            proof {
                assert(false);
            }
            return Err(BakareError::DirectoryNotFile);
        },
    }
    Ok(())
}

/// Law: when two writers merge their path-keyed maps, every path either
/// writer knew survives, with the value of the writer that knew it — and
/// where both knew it, with one of their two values (the strictly newer
/// one when the versions differ).
pub proof fn lemma_merge_preserves_both_writers(
    a: Map<Seq<u8>, ItemModel>,
    b: Map<Seq<u8>, ItemModel>,
)
    ensures
        forall|k: Seq<u8>|
            #![trigger merge_newest_maps(a, b).contains_key(k)]
            merge_newest_maps(a, b).contains_key(k) <==> a.contains_key(k) || b.contains_key(k),
        forall|k: Seq<u8>|
            #![trigger merge_newest_maps(a, b)[k]]
            a.contains_key(k) && !b.contains_key(k) ==> merge_newest_maps(a, b)[k] == a[k],
        forall|k: Seq<u8>|
            #![trigger merge_newest_maps(a, b)[k]]
            b.contains_key(k) && !a.contains_key(k) ==> merge_newest_maps(a, b)[k] == b[k],
        forall|k: Seq<u8>|
            #![trigger merge_newest_maps(a, b)[k]]
            a.contains_key(k) && b.contains_key(k) ==> merge_newest_maps(a, b)[k] == (
            if b[k].version > a[k].version {
                b[k]
            } else {
                a[k]
            }),
{
}


/// Law: restoring a freshly stored file reproduces its bytes exactly.
pub fn stored_item_restores_identical_bytes(
    fs: &mut Fs,
    repository: &mut Repository,
    source_path: &Vec<u8>,
    target: &Vec<u8>,
) -> (r: Result<(), BakareError>)
    requires
        old(repository).wf(),
        old(fs).wf(),
        spec_is_absolute(source_path@),
        spec_is_absolute(target@),
        !spec_is_within(source_path@, old(repository).spec_root()),
        !spec_is_within(target@, old(repository).spec_root()),
        !spec_is_within(old(repository).spec_root(), target@),
        old(fs)@.contains_key(source_path@),
    ensures
        final(repository).wf(),
        final(fs).wf(),
        r is Ok,
        final(fs)@.contains_key(crate::restore::spec_target_file(target@, source_path@)),
        !old(fs)@.contains_key(
            spec_object_path(old(repository).spec_root(), digest_of(old(fs)@[source_path@])),
        ) ==> final(fs)@[crate::restore::spec_target_file(target@, source_path@)] == old(
            fs,
        )@[source_path@],
{
    let ghost root = old(repository).spec_root();
    let ghost c = old(fs)@[source_path@];
    let ghost obj = spec_object_path(root, digest_of(c));
    proof {
        lemma_object_region(root, digest_of(c));
        assert(source_path@ != obj) by {
            assert(spec_is_within(obj, root));
        }
    }
    match repository.store(fs, source_path) {
        Ok(()) => {},
        Err(_) => {
            proof {
                assert(false);
            }
            return Err(BakareError::DirectoryNotFile);
        },
    }
    let item = match repository.newest_item_by_source_path(source_path) {
        Ok(Some(it)) => it,
        _ => {
            proof {
                assert(false);
            }
            return Err(BakareError::CorruptedRepoNoFile);
        },
    };
    proof {
        assert(item@.absolute_path == obj) by {
            assert(repository.newest_map()[source_path@].relative_path == spec_rel_of(
                digest_of(c),
            ));
        }
        assert(fs@.contains_key(obj));
        if !old(fs)@.contains_key(obj) {
            assert(fs@[obj] == c);
        }
    }
    match item.save(fs, target) {
        Ok(()) => {},
        Err(_) => {
            proof {
                assert(false);
            }
            return Err(BakareError::CorruptedRepoNoFile);
        },
    }
    Ok(())
}

/// Law: after a source path is backed up again with different content,
/// the fingerprint of the earlier content still restores exactly the
/// earlier bytes.
pub fn older_revision_restores_original_bytes(
    fs: &mut Fs,
    repository: &mut Repository,
    source_path: &Vec<u8>,
    new_contents: Vec<u8>,
    target: &Vec<u8>,
) -> (r: Result<(), BakareError>)
    requires
        old(repository).wf(),
        old(fs).wf(),
        spec_is_absolute(source_path@),
        spec_is_absolute(target@),
        !spec_is_within(source_path@, old(repository).spec_root()),
        !spec_is_within(target@, old(repository).spec_root()),
        !spec_is_within(old(repository).spec_root(), target@),
        old(fs)@.contains_key(source_path@),
    ensures
        final(repository).wf(),
        final(fs).wf(),
        r is Ok,
        final(fs)@.contains_key(crate::restore::spec_target_file(target@, source_path@)),
        (!old(fs)@.contains_key(
            spec_object_path(old(repository).spec_root(), digest_of(old(fs)@[source_path@])),
        ) && digest_of(new_contents@) != digest_of(old(fs)@[source_path@]))
            ==> final(fs)@[crate::restore::spec_target_file(target@, source_path@)] == old(
            fs,
        )@[source_path@],
        (digest_of(new_contents@) != digest_of(old(fs)@[source_path@]) && remembered_version(
            old(repository).newest_map(),
            source_path@,
        ) < u128::MAX) ==> final(repository).newest_map().contains_key(source_path@)
            && final(repository).id_map().contains_key(digest_of(old(fs)@[source_path@]))
            && final(repository).newest_map()[source_path@].version
            > final(repository).id_map()[digest_of(old(fs)@[source_path@])].version,
{
    let ghost root = old(repository).spec_root();
    let ghost c0 = old(fs)@[source_path@];
    let ghost obj0 = spec_object_path(root, digest_of(c0));
    let first: Vec<u8> = match fs.read(source_path) {
        Some(c) => c.clone(),
        None => {
            proof {
                assert(false);
            }
            return Err(BakareError::CorruptedRepoNoFile);
        },
    };
    let old_id = crate::item_id::ItemId::of(&first);
    match repository.store(fs, source_path) {
        Ok(()) => {},
        Err(_) => {
            proof {
                assert(false);
            }
            return Err(BakareError::DirectoryNotFile);
        },
    }
    let ghost fresh = !old(fs)@.contains_key(obj0);
    proof {
        lemma_object_region(root, digest_of(c0));
        assert(source_path@ != obj0) by {
            assert(spec_is_within(obj0, root));
        }
        assert(fs@.contains_key(obj0));
        if fresh {
            assert(fs@[obj0] == c0);
        }
    }
    fs.write(source_path, new_contents);
    proof {
        assert(fs@[source_path@] == new_contents@);
        assert(fs@.contains_key(obj0));
        if fresh {
            assert(fs@[obj0] == c0);
        }
    }
    match repository.store(fs, source_path) {
        Ok(()) => {},
        Err(_) => {
            proof {
                assert(false);
            }
            return Err(BakareError::DirectoryNotFile);
        },
    }
    proof {
        assert(fs@.contains_key(obj0));
        if fresh {
            assert(fs@[obj0] == c0);
        }
        assert(repository.id_map().contains_key(digest_of(c0)));
        assert(repository.id_map()[digest_of(c0)].relative_path == spec_rel_of(digest_of(c0)))
            by {
            if digest_of(new_contents@) == digest_of(c0) {
            } else {
            }
        }
    }
    let item = match repository.item_by_id(&old_id) {
        Ok(Some(it)) => it,
        _ => {
            proof {
                assert(false);
            }
            return Err(BakareError::CorruptedRepoNoFile);
        },
    };
    proof {
        assert(item@.absolute_path == obj0);
    }
    match item.save(fs, target) {
        Ok(()) => {},
        Err(_) => {
            proof {
                assert(false);
            }
            return Err(BakareError::CorruptedRepoNoFile);
        },
    }
    Ok(())
}


/// Whether content fingerprints tell the source tree's files apart: no
/// two of its files carry equal fingerprints over different bytes.  The
/// design treats fingerprint collisions as unreachable; the round-trip
/// law below is stated under this hypothesis.
pub open spec fn digests_injective_on(m0: Map<Seq<u8>, Seq<u8>>, src: Seq<u8>) -> bool {
    forall|p1: Seq<u8>, p2: Seq<u8>|
        src_file(m0, src, p1) && src_file(m0, src, p2) && digest_of(#[trigger] m0[p1])
            == digest_of(#[trigger] m0[p2]) ==> m0[p1] == m0[p2]
}

/// Law: backing a source tree up into a fresh repository and restoring it
/// into a fresh target reproduces the tree byte for byte: every source
/// file's bytes stand under the target, nothing else stands there, and
/// the source itself is untouched.  Content fingerprints are assumed
/// collision-free across the tree, as the design treats collisions as
/// unreachable.
#[verifier::rlimit(100)]
#[verifier::spinoff_prover]
pub fn backup_then_restore_reproduces_tree(
    fs: &mut Fs,
    source: &Vec<u8>,
    repository_path: &Vec<u8>,
    target: &Vec<u8>,
) -> (r: Result<(), BakareError>)
    requires
        old(fs).wf(),
        spec_is_absolute(source@),
        spec_is_absolute(repository_path@),
        spec_is_absolute(target@),
        !spec_is_within(source@, repository_path@),
        !spec_is_within(repository_path@, source@),
        !spec_is_within(target@, repository_path@),
        !spec_is_within(repository_path@, target@),
        !spec_is_within(source@, target@),
        !spec_is_within(target@, source@),
        forall|k: Seq<u8>| #[trigger]
            old(fs)@.contains_key(k) ==> !spec_is_within(k, repository_path@) && !spec_is_within(
                k,
                target@,
            ),
    ensures
        final(fs).wf(),
        r is Ok,
        digests_injective_on(old(fs)@, source@) ==> roundtrip_outcome(
            old(fs)@,
            final(fs)@,
            source@,
            target@,
        ),
{
    let ghost m0 = fs@;
    let ghost src = source@;
    let ghost root = repository_path@;
    let ghost tgt = target@;
    let ghost ip = spec_index_path(root);
    let (repository, Ghost(m1), Ghost(repo_open)) = match roundtrip_backup_phase(
        fs,
        source,
        repository_path,
        Ghost(tgt),
    ) {
        Ok(t) => t,
        Err(e) => {
            proof {
                assert(false);
            }
            return Err(e);
        },
    };
    proof {
        assert(roundtrip_midpoint(m0, m1, fs@, repo_open, repository, src, root, tgt));
    }
    match roundtrip_restore_phase(
        fs,
        repository,
        repository_path,
        target,
        Ghost(m0),
        Ghost(m1),
        Ghost(repo_open),
        Ghost(src),
    ) {
        Ok(()) => {},
        Err(e) => {
            proof {
                assert(false);
            }
            return Err(e);
        },
    }
    Ok(())
}


/// The restore half of the round trip: reopens the repository and
/// restores every newest revision under the fresh target.
#[verifier::rlimit(100)]
#[verifier::spinoff_prover]
fn roundtrip_restore_phase(
    fs: &mut Fs,
    repository: Repository,
    repository_path: &Vec<u8>,
    target: &Vec<u8>,
    Ghost(m0): Ghost<Map<Seq<u8>, Seq<u8>>>,
    Ghost(m1): Ghost<Map<Seq<u8>, Seq<u8>>>,
    Ghost(repo_open): Ghost<Repository>,
    Ghost(src): Ghost<Seq<u8>>,
) -> (r: Result<(), BakareError>)
    requires
        old(fs).wf(),
        spec_is_absolute(repository_path@),
        spec_is_absolute(target@),
        !spec_is_within(target@, repository_path@),
        !spec_is_within(repository_path@, target@),
        repository.wf(),
        repository.spec_root() == repository_path@,
        roundtrip_midpoint(
            m0,
            m1,
            old(fs)@,
            repo_open,
            repository,
            src,
            repository_path@,
            target@,
        ),
    ensures
        final(fs).wf(),
        match r {
            Ok(()) => digests_injective_on(m0, src) ==> roundtrip_outcome(
                m0,
                final(fs)@,
                src,
                target@,
            ),
            Err(_) => false,
        },
{
    let ghost root = repository_path@;
    let ghost tgt = target@;
    let ghost m2 = fs@;
    let ghost view1 = repository.index_view();
    let mut repository2 = match reopen_for_restore(
        fs,
        &repository,
        repository_path,
        target,
        Ghost(m1),
        Ghost(repo_open),
        Ghost(src),
    ) {
        Ok(rp) => rp,
        Err(e) => {
            proof {
                assert(false);
            }
            return Err(e);
        },
    };
    let rengine = match restore::Engine::new(&mut repository2, target) {
        Ok(e) => e,
        Err(_) => {
            proof {
                assert(false);
            }
            return Err(BakareError::PathToStoreNotAbsolute);
        },
    };
    let ghost repo2_pre = repository2;
    match rengine.restore_all(fs, &mut repository2) {
        Ok(()) => {},
        Err(e) => {
            proof {
                assert(false);
            }
            return Err(e);
        },
    }
    let ghost m3 = fs@;
    proof {
        assert(restore_done(m2, m3, repo2_pre, root, tgt));
        if digests_injective_on(m0, src) {
            lemma_roundtrip_conclude(
                m0,
                m1,
                m2,
                m3,
                repo_open,
                repository,
                repo2_pre,
                src,
                root,
                tgt,
            );
        }
    }
    Ok(())
}

/// Reopens the repository from its freshly written document; the loaded
/// index is exactly the one the backup left, and the world is ready for
/// the restore.
#[verifier::rlimit(100)]
fn reopen_for_restore(
    fs: &mut Fs,
    repository: &Repository,
    repository_path: &Vec<u8>,
    target: &Vec<u8>,
    Ghost(m1): Ghost<Map<Seq<u8>, Seq<u8>>>,
    Ghost(repo_open): Ghost<Repository>,
    Ghost(src): Ghost<Seq<u8>>,
) -> (r: Result<Repository, BakareError>)
    requires
        old(fs).wf(),
        spec_is_absolute(repository_path@),
        spec_is_absolute(target@),
        spec_is_absolute(src),
        repository.wf(),
        repository.spec_root() == repository_path@,
        backup_done(m1, old(fs)@, repo_open, *repository, src, repository_path@),
        repo_open.newest_map() == Map::<Seq<u8>, crate::index_item::ItemModel>::empty(),
    ensures
        final(fs).wf(),
        final(fs)@ == old(fs)@,
        match r {
            Ok(repo2) => repo2.wf() && repo2.spec_root() == repository_path@
                && repo2.index_view() == repository.index_view() && restore_ready(
                old(fs)@,
                repo2,
                repository_path@,
                target@,
            ),
            Err(_) => false,
        },
{
    let ghost root = repository_path@;
    let ghost tgt = target@;
    let ghost m2 = fs@;
    let ghost view1 = repository.index_view();
    proof {
        lemma_parse_index_of_encode(view1);
        lemma_repo_index_maps(*repository);
        assert(view_wf(view1));
    }
    let repository2 = match Repository::open(fs, repository_path) {
        Ok(rp) => rp,
        Err(_) => {
            proof {
                assert(false);
            }
            return Err(BakareError::RepositoryPathNotAbsolute);
        },
    };
    proof {
        assert(repository2.index_view() == view1);
        assert(fs@ == m2);
        lemma_roundtrip_ready_for_restore(
            m1,
            m2,
            repo_open,
            *repository,
            repository2,
            src,
            root,
            tgt,
        );
    }
    Ok(repository2)
}


/// Everything that holds halfway through the round trip, after the backup
/// and before the restore.
pub open spec fn roundtrip_midpoint(
    m0: Map<Seq<u8>, Seq<u8>>,
    m1: Map<Seq<u8>, Seq<u8>>,
    m2: Map<Seq<u8>, Seq<u8>>,
    repo_open: Repository,
    repo1: Repository,
    src: Seq<u8>,
    root: Seq<u8>,
    tgt: Seq<u8>,
) -> bool {
    &&& spec_is_absolute(src)
    &&& !spec_is_within(src, root)
    &&& !spec_is_within(root, src)
    &&& !spec_is_within(tgt, root)
    &&& !spec_is_within(root, tgt)
    &&& !spec_is_within(src, tgt)
    &&& !spec_is_within(tgt, src)
    &&& (forall|k: Seq<u8>| #[trigger]
        m0.contains_key(k) ==> !spec_is_within(k, root) && !spec_is_within(k, tgt))
    &&& m1 == m0.insert(spec_index_path(root), m1[spec_index_path(root)])
    &&& (forall|p: Seq<u8>| src_file(m1, src, p) <==> #[trigger] src_file(m0, src, p))
    &&& backup_done(m1, m2, repo_open, repo1, src, root)
    &&& repo_open.newest_map() == Map::<Seq<u8>, crate::index_item::ItemModel>::empty()
}

/// What the round trip leaves behind: the source tree reproduced under
/// the target, and the source untouched.
pub open spec fn roundtrip_outcome(
    m0: Map<Seq<u8>, Seq<u8>>,
    m3: Map<Seq<u8>, Seq<u8>>,
    src: Seq<u8>,
    tgt: Seq<u8>,
) -> bool {
    &&& (forall|p: Seq<u8>| #[trigger]
        src_file(m0, src, p) ==> m3.contains_key(spec_target_file(tgt, p)) && m3[spec_target_file(
            tgt,
            p,
        )] == m0[p])
    &&& (forall|k: Seq<u8>|
        spec_is_within(k, tgt) && #[trigger] m3.contains_key(k) ==> exists|p: Seq<u8>|
            src_file(m0, src, p) && k == spec_target_file(tgt, p))
    &&& (forall|k: Seq<u8>|
        #![trigger spec_is_within(k, src)]
        spec_is_within(k, src) ==> (m3.contains_key(k) <==> m0.contains_key(k)) && (
        m0.contains_key(k) ==> m3[k] == m0[k]))
}


/// The backup half of the round trip: initializes a repository under the
/// fresh root and backs the source tree up into it.
#[verifier::rlimit(100)]
fn roundtrip_backup_phase(
    fs: &mut Fs,
    source: &Vec<u8>,
    repository_path: &Vec<u8>,
    Ghost(tgt): Ghost<Seq<u8>>,
) -> (r: Result<(Repository, Ghost<Map<Seq<u8>, Seq<u8>>>, Ghost<Repository>), BakareError>)
    requires
        old(fs).wf(),
        spec_is_absolute(source@),
        spec_is_absolute(repository_path@),
        !spec_is_within(source@, repository_path@),
        !spec_is_within(repository_path@, source@),
        forall|k: Seq<u8>| #[trigger]
            old(fs)@.contains_key(k) ==> !spec_is_within(k, repository_path@) && !spec_is_within(
                k,
                tgt,
            ),
    ensures
        final(fs).wf(),
        match r {
            Ok((repo1, gm1, gopen)) => repo1.wf() && repo1.spec_root() == repository_path@
                && gm1@ == old(fs)@.insert(
                spec_index_path(repository_path@),
                gm1@[spec_index_path(repository_path@)],
            ) && (forall|p: Seq<u8>|
                src_file(gm1@, source@, p) <==> #[trigger] src_file(old(fs)@, source@, p))
                && backup_done(gm1@, final(fs)@, gopen@, repo1, source@, repository_path@)
                && gopen@.newest_map() == Map::<Seq<u8>, crate::index_item::ItemModel>::empty(),
            Err(_) => false,
        },
{
    let ghost m0 = fs@;
    let ghost src = source@;
    let ghost root = repository_path@;
    let ghost ip = spec_index_path(root);
    proof {
        lemma_object_region(root, Seq::empty());
        assert(spec_is_within(ip, root));
        assert(!m0.contains_key(ip));
        assert(!spec_any_lock(m0, root)) by {
            if spec_any_lock(m0, root) {
                let k = choose|k: Seq<u8>|
                    m0.contains_key(k) && crate::lock::spec_is_lock_path(k, root);
                assert(spec_is_within(k, root)) by {
                    assert(k.subrange(0, root.len() as int + 1) == root.push(sep()));
                }
            }
        }
    }
    let mut repository = match Repository::open(fs, repository_path) {
        Ok(rp) => rp,
        Err(_) => {
            proof {
                assert(false);
            }
            return Err(BakareError::RepositoryPathNotAbsolute);
        },
    };
    let ghost m1 = fs@;
    let ghost v_open = repository.index_view();
    proof {
        assert(m1 == m0.insert(ip, spec_encode_index(v_open)));
        lemma_roundtrip_after_open(m0, m1, repository, src, root, tgt);
    }
    let engine = match backup::Engine::new(source, &repository) {
        Ok(e) => e,
        Err(_) => {
            proof {
                assert(false);
            }
            return Err(BakareError::SourceSameAsRepository);
        },
    };
    let ghost repo_open = repository;
    match engine.backup(fs, &mut repository) {
        Ok(()) => {},
        Err(e) => {
            proof {
                assert(false);
            }
            return Err(e);
        },
    }
    Ok((repository, Ghost(m1), Ghost(repo_open)))
}

/// Opening a repository under a fresh root leaves an empty index and a
/// world that is ready for a backup run.
proof fn lemma_roundtrip_after_open(
    m0: Map<Seq<u8>, Seq<u8>>,
    m1: Map<Seq<u8>, Seq<u8>>,
    repo: Repository,
    src: Seq<u8>,
    root: Seq<u8>,
    tgt: Seq<u8>,
)
    requires
        spec_is_absolute(src),
        !spec_is_within(src, root),
        !spec_is_within(root, src),
        forall|k: Seq<u8>| #[trigger]
            m0.contains_key(k) ==> !spec_is_within(k, root) && !spec_is_within(k, tgt),
        repo.wf(),
        repo.spec_root() == root,
        repo.index_view().newest.len() == 0,
        repo.index_view().by_id.len() == 0,
        repo.index_view().version == 2,
        m1 == m0.insert(spec_index_path(root), spec_encode_index(repo.index_view())),
    ensures
        backup_ready(m1, src, root, repo),
        repo.newest_map() == Map::<Seq<u8>, crate::index_item::ItemModel>::empty(),
        forall|p: Seq<u8>| src_file(m1, src, p) <==> #[trigger] src_file(m0, src, p),
{
    let ip = spec_index_path(root);
    let v_open = repo.index_view();
    lemma_pow256_values();
    assert(view_fits(v_open));
    lemma_repo_index_maps(repo);
    assert(view_wf(v_open));
    lemma_parse_index_of_encode(v_open);
    lemma_item_map_membership(v_open.newest, key_of_path());
    assert(repo.newest_map() =~= Map::<Seq<u8>, crate::index_item::ItemModel>::empty());
    crate::repository::lemma_object_region(root, Seq::empty());
    assert(spec_is_within(ip, root));
    assert(!spec_any_lock(m1, root)) by {
        if spec_any_lock(m1, root) {
            let k = choose|k: Seq<u8>|
                m1.contains_key(k) && crate::lock::spec_is_lock_path(k, root);
            if k == ip {
                crate::index::lemma_index_path_not_lock(root, k);
            } else {
                assert(m0.contains_key(k));
                assert(spec_is_within(k, root)) by {
                    assert(k.subrange(0, root.len() as int + 1) == root.push(sep()));
                }
            }
        }
    }
    assert(disk_doc_ok(m1, root, repo));
    assert forall|p: Seq<u8>|
        src_file(m1, src, p) <==> #[trigger] src_file(m0, src, p) by {
        if p == ip && spec_starts_with(p, src.push(sep())) {
            assert(spec_is_within(p, src)) by {
                assert(p.len() > src.len());
            }
            lemma_within_two_dirs(p, src, root);
        }
    }
}

/// After a fresh backup, the reopened repository is ready to restore:
/// its document is loadable and every recorded object is present.
proof fn lemma_roundtrip_ready_for_restore(
    m1: Map<Seq<u8>, Seq<u8>>,
    m2: Map<Seq<u8>, Seq<u8>>,
    repo_open: Repository,
    repo1: Repository,
    repo2: Repository,
    src: Seq<u8>,
    root: Seq<u8>,
    tgt: Seq<u8>,
)
    requires
        spec_is_absolute(src),
        spec_is_absolute(tgt),
        backup_done(m1, m2, repo_open, repo1, src, root),
        repo_open.newest_map() == Map::<Seq<u8>, crate::index_item::ItemModel>::empty(),
        repo1.wf(),
        repo2.wf(),
        repo2.index_view() == repo1.index_view(),
    ensures
        restore_ready(m2, repo2, root, tgt),
{
    lemma_parse_index_of_encode(repo1.index_view());
    assert(spec_parse_index(m2[spec_index_path(root)]) == Some(repo1.index_view()));
    let view1 = repo1.index_view();
    let a0 = repo_open.newest_map();
    lemma_repo_index_maps(repo1);
    lemma_repo_index_maps(repo2);
    assert(crate::index::item_keys_distinct(view1.newest, key_of_path()));
    lemma_item_map_membership(view1.newest, key_of_path());
    assert(repo2.newest_map() == repo1.newest_map());
    assert forall|j: int|
        0 <= j < repo2.index_view().newest.len() implies m2.contains_key(
        #[trigger] crate::paths::spec_join(root, repo2.index_view().newest[j].relative_path),
    ) && spec_is_absolute(repo2.index_view().newest[j].original_source_path) by {
        let it = view1.newest[j];
        lemma_item_map_value(view1.newest, key_of_path(), j);
        let p = it.original_source_path;
        assert(repo1.newest_map().contains_key(p));
        assert(src_file(m1, src, p)) by {
            if a0.contains_key(p) {
                assert(false);
            }
        }
        assert(it == repo1.newest_map()[p]);
        assert(it.relative_path == spec_rel_of(dig_of(m1, p)));
        assert(crate::paths::spec_join(root, it.relative_path) == spec_object_path(
            root,
            dig_of(m1, p),
        ));
        assert(m2.contains_key(spec_object_path(root, dig_of(m1, p))));
        assert(spec_is_absolute(p)) by {
            assert(p.subrange(0, src.len() as int + 1) == src.push(sep()));
            assert(p.subrange(0, src.len() as int + 1)[0] == p[0]);
        }
    }
    assert(disk_doc_ok(m2, root, repo2));
}

/// A fresh backup followed by a restore into a fresh target reproduces
/// the source tree byte for byte.
proof fn lemma_roundtrip_conclude(
    m0: Map<Seq<u8>, Seq<u8>>,
    m1: Map<Seq<u8>, Seq<u8>>,
    m2: Map<Seq<u8>, Seq<u8>>,
    m3: Map<Seq<u8>, Seq<u8>>,
    repo_open: Repository,
    repo1: Repository,
    repo2: Repository,
    src: Seq<u8>,
    root: Seq<u8>,
    tgt: Seq<u8>,
)
    requires
        spec_is_absolute(src),
        !spec_is_within(src, root),
        !spec_is_within(root, src),
        !spec_is_within(tgt, root),
        !spec_is_within(root, tgt),
        !spec_is_within(src, tgt),
        !spec_is_within(tgt, src),
        forall|k: Seq<u8>| #[trigger]
            m0.contains_key(k) ==> !spec_is_within(k, root) && !spec_is_within(k, tgt),
        digests_injective_on(m0, src),
        m1 == m0.insert(spec_index_path(root), m1[spec_index_path(root)]),
        forall|p: Seq<u8>| src_file(m1, src, p) <==> #[trigger] src_file(m0, src, p),
        backup_done(m1, m2, repo_open, repo1, src, root),
        repo_open.newest_map() == Map::<Seq<u8>, crate::index_item::ItemModel>::empty(),
        repo1.wf(),
        repo2.index_view() == repo1.index_view(),
        restore_done(m2, m3, repo2, root, tgt),
    ensures
        forall|p: Seq<u8>| #[trigger]
            src_file(m0, src, p) ==> m3.contains_key(spec_target_file(tgt, p))
                && m3[spec_target_file(tgt, p)] == m0[p],
        forall|k: Seq<u8>|
            spec_is_within(k, tgt) && #[trigger] m3.contains_key(k) ==> exists|p: Seq<u8>|
                src_file(m0, src, p) && k == spec_target_file(tgt, p),
        forall|k: Seq<u8>|
            #![trigger spec_is_within(k, src)]
            spec_is_within(k, src) ==> (m3.contains_key(k) <==> m0.contains_key(k)) && (
            m0.contains_key(k) ==> m3[k] == m0[k]),
{
    let ip = spec_index_path(root);
    let view1 = repo1.index_view();
    let items = view1.newest;
    let a0 = repo_open.newest_map();
    lemma_repo_index_maps(repo1);
    assert(crate::index::item_keys_distinct(items, key_of_path()));
    lemma_item_map_membership(items, key_of_path());
    crate::repository::lemma_object_region(root, Seq::empty());
    assert(spec_is_within(ip, root));
    // Every source file's bytes stand at its target file.
    assert forall|p: Seq<u8>| #[trigger]
        src_file(m0, src, p) implies m3.contains_key(spec_target_file(tgt, p))
        && m3[spec_target_file(tgt, p)] == m0[p] by {
        assert(src_file(m1, src, p));
        assert(repo1.newest_map().contains_key(p));
        let j = choose|j: int| 0 <= j < items.len() && key_of_path()(items[j]) == p;
        lemma_item_map_value(items, key_of_path(), j);
        assert(items[j] == repo1.newest_map()[p]);
        assert(items[j].original_source_path == p);
        assert(m3.contains_key(spec_target_file(tgt, items[j].original_source_path)));
        let obj = spec_object_path(root, dig_of(m1, p));
        assert(crate::paths::spec_join(root, items[j].relative_path) == obj);
        assert(m3[spec_target_file(tgt, p)] == m2[obj]);
        assert(!m1.contains_key(obj)) by {
            crate::repository::lemma_object_region(root, dig_of(m1, p));
            assert(spec_is_within(obj, root));
            if m0.contains_key(obj) {
                assert(!spec_is_within(obj, root));
            }
            if obj == ip {
                crate::repository::lemma_object_not_index(root, dig_of(m1, p));
            }
        }
        let p2 = choose|p2: Seq<u8>|
            #![trigger m1[p2]]
            src_file(m1, src, p2) && dig_of(m1, p2) == dig_of(m1, p) && m2[obj] == m1[p2];
        assert(src_file(m0, src, p2));
        assert(m1[p2] == m0[p2] && m1[p] == m0[p]) by {
            assert(p2 != ip && p != ip) by {
                if p2 == ip {
                    assert(m0.contains_key(p2) && spec_is_within(p2, root));
                }
                if p == ip {
                    assert(m0.contains_key(p) && spec_is_within(p, root));
                }
            }
        }
        assert(digest_of(m0[p2]) == digest_of(m0[p]));
        assert(m0[p2] == m0[p]);
    }
    // Nothing else stands under the target.
    assert forall|k: Seq<u8>|
        spec_is_within(k, tgt) && #[trigger] m3.contains_key(k) implies exists|p: Seq<u8>|
        src_file(m0, src, p) && k == spec_target_file(tgt, p) by {
        assert(!m2.contains_key(k)) by {
            if m2.contains_key(k) {
                assert(!spec_is_within(k, root)) by {
                    if spec_is_within(k, root) {
                        lemma_within_two_dirs(k, root, tgt);
                    }
                }
                if k == ip {
                    assert(spec_is_within(k, root));
                    assert(false);
                }
                if !m1.contains_key(k) {
                    let p = choose|p: Seq<u8>|
                        src_file(m1, src, p) && k == spec_object_path(root, dig_of(m1, p));
                    crate::repository::lemma_object_region(root, dig_of(m1, p));
                    assert(spec_is_within(k, root));
                    assert(false);
                }
                assert(m0.contains_key(k));
                assert(!spec_is_within(k, tgt));
            }
        }
        let j = choose|j: int|
            0 <= j < items.len() && k == spec_target_file(
                tgt,
                #[trigger] items[j].original_source_path,
            );
        lemma_item_map_value(items, key_of_path(), j);
        let p = items[j].original_source_path;
        assert(repo1.newest_map().contains_key(p));
        assert(src_file(m1, src, p)) by {
            if a0.contains_key(p) {
                assert(false);
            }
        }
        assert(src_file(m0, src, p) && k == spec_target_file(tgt, p));
    }
    // The source region is untouched.
    assert forall|k: Seq<u8>|
        spec_is_within(k, src) implies (m3.contains_key(k) <==> m0.contains_key(k)) && (
    m0.contains_key(k) ==> #[trigger] m3[k] == m0[k]) by {
        assert(!spec_is_within(k, root)) by {
            if spec_is_within(k, root) {
                lemma_within_two_dirs(k, src, root);
            }
        }
        assert(!spec_is_within(k, tgt)) by {
            if spec_is_within(k, tgt) {
                lemma_within_two_dirs(k, src, tgt);
            }
        }
        assert(k != ip);
        assert(m2.contains_key(k) <==> m1.contains_key(k)) by {
            if m2.contains_key(k) && !m1.contains_key(k) {
                if k == ip {
                    assert(false);
                } else {
                    let p = choose|p: Seq<u8>|
                        src_file(m1, src, p) && k == spec_object_path(root, dig_of(m1, p));
                    crate::repository::lemma_object_region(root, dig_of(m1, p));
                    assert(spec_is_within(k, root));
                    assert(false);
                }
            }
        }
        assert(m1.contains_key(k) ==> m2[k] == m1[k]);
        assert((m1.contains_key(k) <==> m0.contains_key(k)) && (m0.contains_key(k) ==> m1[k]
            == m0[k]));
        assert((m3.contains_key(k) <==> m2.contains_key(k)) && (m2.contains_key(k) ==> m3[k]
            == m2[k]));
    }
}


/// Law: initializing a fresh root creates a loadable empty repository —
/// reopening succeeds, no revision is known, and the object store weighs
/// nothing more than before.
pub fn initialized_repository_opens_empty(fs: &mut Fs, path: &Vec<u8>) -> (r: Result<
    Repository,
    BakareError,
>)
    requires
        old(fs).wf(),
        spec_is_absolute(path@),
        !spec_any_lock(old(fs)@, path@),
        !old(fs)@.contains_key(spec_index_path(path@)),
    ensures
        final(fs).wf(),
        match r {
            Ok(repo) => repo.wf() && repo.spec_root() == path@ && repo.index_view().newest.len()
                == 0 && repo.index_view().by_id.len() == 0 && final(fs)@ == old(fs)@.insert(
                spec_index_path(path@),
                spec_encode_index(crate::index::spec_fresh_index_view()),
            ) && final(fs).spec_weight(spec_data_prefix(path@)) == old(fs).spec_weight(
                spec_data_prefix(path@),
            ),
            Err(_) => false,
        },
{
    let ghost ip = spec_index_path(path@);
    let ghost fresh = crate::index::spec_fresh_index_view();
    proof {
        lemma_object_region(path@, Seq::empty());
    }
    match Repository::init(fs, path) {
        Ok(()) => {},
        Err(_) => {
            proof {
                assert(false);
            }
            return Err(BakareError::IndexLoadingError);
        },
    }
    proof {
        assert(fs@ == old(fs)@.insert(ip, spec_encode_index(fresh)));
        lemma_pow256_values();
        assert(view_fits(fresh));
        assert(view_wf(fresh)) by {
            assert(crate::index::item_map_of(fresh.newest, key_of_path()) =~= Map::<
                Seq<u8>,
                crate::index_item::ItemModel,
            >::empty());
        }
        lemma_parse_index_of_encode(fresh);
        assert(!spec_any_lock(fs@, path@)) by {
            if spec_any_lock(fs@, path@) {
                let k = choose|k: Seq<u8>|
                    fs@.contains_key(k) && crate::lock::spec_is_lock_path(k, path@);
                if k == ip {
                    crate::index::lemma_index_path_not_lock(path@, k);
                } else {
                    assert(old(fs)@.contains_key(k));
                }
            }
        }
    }
    let repository = match Repository::open(fs, path) {
        Ok(rp) => rp,
        Err(_) => {
            proof {
                assert(false);
            }
            return Err(BakareError::IndexLoadingError);
        },
    };
    proof {
        assert(repository.index_view() == fresh);
    }
    Ok(repository)
}

} // verus!
