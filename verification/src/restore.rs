//! The restore engine: materializes the newest revision of every backed-up
//! file under a target root.

use vstd::prelude::*;
use crate::error::BakareError;
use crate::fs::Fs;
use crate::backup::{disk_doc_ok, lemma_merge_newest_dominated};
use crate::index::{spec_index_path, item_map_of, key_of_path};
use crate::index_item::ItemModel;
use crate::lock::spec_any_lock;
use crate::paths::{
    sep, spec_is_absolute, spec_is_within, spec_join, spec_strip_leading_sep,
    lemma_within_two_dirs,
};
use crate::codec::spec_parse_index;
use crate::repository::{Repository, lemma_repo_index_maps, repo_item_model_of};
use crate::repository_item::RepositoryItem;

verus! {

/// Where one revision is materialized under the target root.
pub open spec fn spec_target_file(target: Seq<u8>, osp: Seq<u8>) -> Seq<u8> {
    spec_join(target, spec_strip_leading_sep(osp))
}

/// Stripping the leading separator keeps absolute paths apart.
pub proof fn lemma_strip_injective(p1: Seq<u8>, p2: Seq<u8>)
    requires
        spec_is_absolute(p1),
        spec_is_absolute(p2),
        spec_strip_leading_sep(p1) == spec_strip_leading_sep(p2),
    ensures
        p1 == p2,
{
    let s1 = p1.subrange(1, p1.len() as int);
    let s2 = p2.subrange(1, p2.len() as int);
    assert(s1.len() == p1.len() - 1);
    assert(s2.len() == p2.len() - 1);
    assert(p1.len() == p2.len());
    assert forall|j: int| 0 <= j < p1.len() implies p1[j] == p2[j] by {
        if j == 0 {
            assert(p1[0] == sep() && p2[0] == sep());
        } else {
            assert(s1[j - 1] == p1[j]);
            assert(s2[j - 1] == p2[j]);
        }
    }
    assert(p1 =~= p2);
}

/// Joining under one directory keeps distinct tails apart.
pub proof fn lemma_join_injective(d: Seq<u8>, a: Seq<u8>, b: Seq<u8>)
    requires
        spec_join(d, a) == spec_join(d, b),
    ensures
        a == b,
{
    let ja = spec_join(d, a);
    let jb = spec_join(d, b);
    assert(ja.len() == d.len() + 1 + a.len());
    assert(jb.len() == d.len() + 1 + b.len());
    assert(a.len() == b.len());
    assert forall|j: int| 0 <= j < a.len() implies a[j] == b[j] by {
        assert(ja[d.len() as int + 1 + j] == a[j]) by {
            assert(ja == d.push(sep()) + a);
        }
        assert(jb[d.len() as int + 1 + j] == b[j]) by {
            assert(jb == d.push(sep()) + b);
        }
    }
    assert(a =~= b);
}

/// What must hold of the world for a restore run to be owed success: an
/// absolute target, no foreign lockfile, a loadable dominated index
/// document, and every newest revision's object present with an absolute
/// original source path.
pub open spec fn restore_ready(
    m0: Map<Seq<u8>, Seq<u8>>,
    repo: Repository,
    root: Seq<u8>,
    target: Seq<u8>,
) -> bool {
    &&& spec_is_absolute(target)
    &&& !spec_any_lock(m0, root)
    &&& disk_doc_ok(m0, root, repo)
    &&& forall|j: int|
        0 <= j < repo.index_view().newest.len() ==> m0.contains_key(
            #[trigger] spec_join(root, repo.index_view().newest[j].relative_path),
        ) && spec_is_absolute(repo.index_view().newest[j].original_source_path)
}

/// What a finished restore run guarantees: each newest revision's bytes
/// stand at its target file, and nothing else changed but the index
/// document.
pub open spec fn restore_done(
    m0: Map<Seq<u8>, Seq<u8>>,
    m1: Map<Seq<u8>, Seq<u8>>,
    repo: Repository,
    root: Seq<u8>,
    target: Seq<u8>,
) -> bool {
    let items = repo.index_view().newest;
    &&& forall|j: int|
        0 <= j < items.len() ==> m1.contains_key(
            #[trigger] spec_target_file(target, items[j].original_source_path),
        ) && m1[spec_target_file(target, items[j].original_source_path)] == m0[spec_join(
            root,
            items[j].relative_path,
        )]
    &&& forall|k: Seq<u8>|
        #![trigger m1.contains_key(k)]
        !spec_is_within(k, target) && k != spec_index_path(root) ==> (m1.contains_key(k) <==> m0.contains_key(k))
            && (m0.contains_key(k) ==> m1[k] == m0[k])
    &&& forall|k: Seq<u8>|
        #![trigger spec_is_within(k, target)]
        spec_is_within(k, target) && m1.contains_key(k) && !m0.contains_key(k) ==> exists|j: int|
            0 <= j < items.len() && k == spec_target_file(
                target,
                #[trigger] items[j].original_source_path,
            )
}

/// The restore engine: a target root to rebuild a tree under.
pub struct Engine {
    target_path: Vec<u8>,
}

impl Engine {
    /// The target root this engine writes.
    pub closed spec fn spec_target(self) -> Seq<u8> {
        self.target_path@
    }

    /// Pairs a repository with a target root.
    pub fn new(repository: &mut Repository, target_path: &Vec<u8>) -> (r: Result<
        Engine,
        BakareError,
    >)
        ensures
            match r {
                Ok(e) => e.spec_target() == target_path@ && *final(repository) == *old(repository),
                Err(_) => false,
            },
    {
        Ok(Engine { target_path: target_path.clone() })
    }

    /// Materializes one revision under the target root.
    pub fn restore(&self, fs: &mut Fs, item: &RepositoryItem) -> (r: Result<(), BakareError>)
        requires
            old(fs).wf(),
        ensures
            final(fs).wf(),
            match r {
                Ok(()) => spec_is_absolute(self.spec_target()) && old(fs)@.contains_key(
                    item@.absolute_path,
                ) && final(fs)@ == old(fs)@.insert(
                    spec_target_file(self.spec_target(), item@.original_source_path),
                    old(fs)@[item@.absolute_path],
                ),
                Err(e) => *final(fs) == *old(fs) && ((e == BakareError::PathToStoreNotAbsolute
                    && !spec_is_absolute(self.spec_target())) || (e
                    == BakareError::CorruptedRepoNoFile && spec_is_absolute(self.spec_target())
                    && !old(fs)@.contains_key(item@.absolute_path))),
            },
    {
        item.save(fs, &self.target_path)
    }

    /// Materializes the newest revision of every backed-up file under the
    /// target root, then saves the index.  When the world is ready (see
    /// [`restore_ready`]) the run succeeds and every revision's bytes
    /// stand at its target file.
    pub fn restore_all(&self, fs: &mut Fs, repository: &mut Repository) -> (r: Result<
        (),
        BakareError,
    >)
        requires
            old(repository).wf(),
            old(fs).wf(),
            !spec_is_within(self.spec_target(), old(repository).spec_root()),
            !spec_is_within(old(repository).spec_root(), self.spec_target()),
        ensures
            final(repository).wf(),
            final(fs).wf(),
            final(repository).spec_root() == old(repository).spec_root(),
            forall|k: Seq<u8>|
                #![trigger final(fs)@.contains_key(k)]
                !spec_is_within(k, self.spec_target()) && k != spec_index_path(
                    old(repository).spec_root(),
                ) ==> (final(fs)@.contains_key(k) <==> old(fs)@.contains_key(k)) && (old(
                    fs,
                )@.contains_key(k) ==> final(fs)@[k] == old(fs)@[k]),
            restore_ready(
                old(fs)@,
                *old(repository),
                old(repository).spec_root(),
                self.spec_target(),
            ) ==> r is Ok && restore_done(
                old(fs)@,
                final(fs)@,
                *old(repository),
                old(repository).spec_root(),
                self.spec_target(),
            ) && final(repository).newest_map() == old(repository).newest_map(),
    {
        let ghost root = old(repository).spec_root();
        let ghost target = self.spec_target();
        let ghost m0 = fs@;
        let ghost items = old(repository).index_view().newest;
        let ghost ready = restore_ready(m0, *old(repository), root, target);
        let mut it = repository.newest_items();
        let ghost models = items.map_values(|m: ItemModel| repo_item_model_of(root, m));
        let total = it.count_remaining();
        proof {
            assert(items.len() == total as int);
        }
        let mut i: usize = 0;
        while it.count_remaining() > 0
            invariant
                repository.wf(),
                fs.wf(),
                repository.spec_root() == root,
                *repository == *old(repository),
                target == self.spec_target(),
                m0 == old(fs)@,
                items == old(repository).index_view().newest,
                ready == restore_ready(m0, *old(repository), root, target),
                !spec_is_within(target, root),
                !spec_is_within(root, target),
                i <= items.len(),
                items.len() <= usize::MAX,
                it.remaining() == models.skip(i as int),
                models == items.map_values(|m: ItemModel| repo_item_model_of(root, m)),
                forall|k: Seq<u8>|
                    #![trigger fs@.contains_key(k)]
                    !spec_is_within(k, target) ==> (fs@.contains_key(k) <==> m0.contains_key(k))
                        && (m0.contains_key(k) ==> fs@[k] == m0[k]),
                ready ==> restore_run_inv(m0, fs@, items, root, target, i as int),
            decreases it.remaining().len(),
        {
            proof {
                assert(it.remaining().len() == models.skip(i as int).len());
                assert(models.skip(i as int).len() == models.len() - i);
                assert(i < items.len());
            }
            let item = match it.next() {
                Some(x) => x,
                None => {
                    proof {
                        assert(false);
                    }
                    return Err(BakareError::CorruptedRepoNoFile);
                },
            };
            proof {
                assert(models.skip(i as int)[0] == models[i as int]);
                assert(models.skip(i as int).skip(1) =~= models.skip(i + 1 as int));
                assert(item@ == repo_item_model_of(root, items[i as int]));
            }
            let ghost fsm_pre = fs@;
            match self.restore(fs, &item) {
                Ok(()) => {},
                Err(e) => {
                    proof {
                        if ready {
                            assert(fsm_pre.contains_key(item@.absolute_path)) by {
                                assert(m0.contains_key(
                                    spec_join(root, items[i as int].relative_path),
                                ));
                                lemma_restore_obj_untouched(
                                    m0,
                                    fsm_pre,
                                    items,
                                    root,
                                    target,
                                    i as int,
                                );
                            }
                            assert(false);
                        }
                    }
                    return Err(e);
                },
            }
            proof {
                let tf = spec_target_file(target, item@.original_source_path);
                assert(tf.subrange(0, target.len() as int + 1) =~= target.push(sep()));
                assert(spec_is_within(tf, target));
                if ready {
                    assert(m0.contains_key(spec_join(root, items[i as int].relative_path)));
                    assert(spec_is_absolute(items[i as int].original_source_path));
                    assert forall|j: int|
                        0 <= j < items.len() implies spec_is_absolute(
                        #[trigger] items[j].original_source_path,
                    ) by {
                        assert(m0.contains_key(spec_join(root, items[j].relative_path)));
                    }
                    lemma_repo_index_maps(*repository);
                    assert(crate::index::item_keys_distinct(items, key_of_path()));
                    assert forall|j1: int, j2: int|
                        0 <= j1 < j2 < items.len() implies items[j1].original_source_path
                        != items[j2].original_source_path by {
                        assert(key_of_path()(items[j1]) == items[j1].original_source_path);
                        assert(key_of_path()(items[j2]) == items[j2].original_source_path);
                    }
                    lemma_restore_step(m0, fsm_pre, fs@, items, root, target, i as int);
                }
            }
            i += 1;
        }
        proof {
            if ready {
                assert(i as int == items.len()) by {
                    assert(it.remaining().len() == 0);
                    assert(models.skip(i as int).len() == models.len() - i);
                }
            }
        }
        let ghost fsm_s = fs@;
        let ghost repo_s = *repository;
        match repository.save_index(fs) {
            Ok(()) => {},
            Err(e) => {
                proof {
                    if ready {
                        lemma_restore_save_ready(
                            m0,
                            fsm_s,
                            repo_s,
                            items,
                            root,
                            target,
                            items.len() as int,
                        );
                        assert(false);
                    }
                }
                return Err(e);
            },
        }
        proof {
            if ready {
                lemma_restore_save_ready(
                    m0,
                    fsm_s,
                    repo_s,
                    items,
                    root,
                    target,
                    items.len() as int,
                );
                lemma_restore_conclude(
                    m0,
                    fsm_s,
                    fs@,
                    repo_s,
                    *repository,
                    items,
                    root,
                    target,
                );
            }
        }
        Ok(())
    }

}

/// The running state of a restore pass: the first `i` revisions stand at
/// their target files and nothing else changed.
pub open spec fn restore_run_inv(
    m0: Map<Seq<u8>, Seq<u8>>,
    fsm: Map<Seq<u8>, Seq<u8>>,
    items: Seq<ItemModel>,
    root: Seq<u8>,
    target: Seq<u8>,
    i: int,
) -> bool {
    &&& forall|j: int|
        0 <= j < i ==> fsm.contains_key(
            #[trigger] spec_target_file(target, items[j].original_source_path),
        ) && fsm[spec_target_file(target, items[j].original_source_path)] == m0[spec_join(
            root,
            items[j].relative_path,
        )]
    &&& forall|k: Seq<u8>|
        #![trigger fsm.contains_key(k)]
        !spec_is_within(k, target) ==> (fsm.contains_key(k) <==> m0.contains_key(k)) && (
        m0.contains_key(k) ==> fsm[k] == m0[k])
    &&& forall|k: Seq<u8>|
        #![trigger spec_is_within(k, target)]
        spec_is_within(k, target) && fsm.contains_key(k) && !m0.contains_key(k) ==> exists|j: int|
            0 <= j < i && k == spec_target_file(
                target,
                #[trigger] items[j].original_source_path,
            )
}

/// Inside a restore run, a revision's object still carries its original
/// bytes: the run writes only under the target.
proof fn lemma_restore_obj_untouched(
    m0: Map<Seq<u8>, Seq<u8>>,
    fsm: Map<Seq<u8>, Seq<u8>>,
    items: Seq<ItemModel>,
    root: Seq<u8>,
    target: Seq<u8>,
    i: int,
)
    requires
        0 <= i < items.len(),
        restore_run_inv(m0, fsm, items, root, target, i),
        m0.contains_key(spec_join(root, items[i].relative_path)),
        !spec_is_within(target, root),
        !spec_is_within(root, target),
    ensures
        fsm.contains_key(spec_join(root, items[i].relative_path)),
        fsm[spec_join(root, items[i].relative_path)] == m0[spec_join(
            root,
            items[i].relative_path,
        )],
{
    let obj = spec_join(root, items[i].relative_path);
    assert(spec_is_within(obj, root)) by {
        assert(obj.subrange(0, root.len() as int + 1) =~= root.push(sep()));
    }
    assert(!spec_is_within(obj, target)) by {
        if spec_is_within(obj, target) {
            lemma_within_two_dirs(obj, root, target);
        }
    }
}

/// One materialized revision extends the restore state.
proof fn lemma_restore_step(
    m0: Map<Seq<u8>, Seq<u8>>,
    fsm_pre: Map<Seq<u8>, Seq<u8>>,
    fsm: Map<Seq<u8>, Seq<u8>>,
    items: Seq<ItemModel>,
    root: Seq<u8>,
    target: Seq<u8>,
    i: int,
)
    requires
        0 <= i < items.len(),
        restore_run_inv(m0, fsm_pre, items, root, target, i),
        m0.contains_key(spec_join(root, items[i].relative_path)),
        spec_is_absolute(items[i].original_source_path),
        forall|j: int|
            0 <= j < items.len() ==> spec_is_absolute(#[trigger] items[j].original_source_path),
        forall|j1: int, j2: int|
            0 <= j1 < j2 < items.len() ==> items[j1].original_source_path
                != items[j2].original_source_path,
        !spec_is_within(target, root),
        !spec_is_within(root, target),
        fsm == fsm_pre.insert(
            spec_target_file(target, items[i].original_source_path),
            fsm_pre[spec_join(root, items[i].relative_path)],
        ),
    ensures
        restore_run_inv(m0, fsm, items, root, target, i + 1),
{
    let tf = spec_target_file(target, items[i].original_source_path);
    let obj = spec_join(root, items[i].relative_path);
    lemma_restore_obj_untouched(m0, fsm_pre, items, root, target, i);
    assert(spec_is_within(tf, target)) by {
        assert(tf.subrange(0, target.len() as int + 1) =~= target.push(sep()));
    }
    assert(!spec_is_within(tf, root)) by {
        if spec_is_within(tf, root) {
            lemma_within_two_dirs(tf, target, root);
        }
    }
    assert forall|j: int|
        0 <= j < i + 1 implies fsm.contains_key(
        #[trigger] spec_target_file(target, items[j].original_source_path),
    ) && fsm[spec_target_file(target, items[j].original_source_path)] == m0[spec_join(
        root,
        items[j].relative_path,
    )] by {
        let tfj = spec_target_file(target, items[j].original_source_path);
        if j < i {
            if tfj == tf {
                lemma_join_injective(
                    target,
                    spec_strip_leading_sep(items[j].original_source_path),
                    spec_strip_leading_sep(items[i].original_source_path),
                );
                lemma_strip_injective(
                    items[j].original_source_path,
                    items[i].original_source_path,
                );
                assert(false);
            }
            assert(fsm[tfj] == fsm_pre[tfj]);
        } else {
            assert(fsm[tf] == fsm_pre[obj]);
        }
    }
    assert forall|k: Seq<u8>|
        spec_is_within(k, target) && fsm.contains_key(k) && !m0.contains_key(k) implies exists|
        j: int,
    |
        0 <= j < i + 1 && k == spec_target_file(
            target,
            #[trigger] items[j].original_source_path,
        ) by {
        if k != tf {
            assert(fsm_pre.contains_key(k));
            let j = choose|j: int|
                0 <= j < i && k == spec_target_file(
                    target,
                    #[trigger] items[j].original_source_path,
                );
        }
    }
}

/// After the walk, the world is still ready for the closing index save.
proof fn lemma_restore_save_ready(
    m0: Map<Seq<u8>, Seq<u8>>,
    fsm: Map<Seq<u8>, Seq<u8>>,
    repo_s: Repository,
    items: Seq<ItemModel>,
    root: Seq<u8>,
    target: Seq<u8>,
    i: int,
)
    requires
        restore_run_inv(m0, fsm, items, root, target, i),
        !spec_any_lock(m0, root),
        disk_doc_ok(m0, root, repo_s),
        !spec_is_within(target, root),
        !spec_is_within(root, target),
    ensures
        !spec_any_lock(fsm, root),
        disk_doc_ok(fsm, root, repo_s),
{
    let ip = spec_index_path(root);
    assert(!spec_any_lock(fsm, root)) by {
        if spec_any_lock(fsm, root) {
            let k = choose|k: Seq<u8>|
                fsm.contains_key(k) && crate::lock::spec_is_lock_path(k, root);
            assert(spec_is_within(k, root)) by {
                assert(k.subrange(0, root.len() as int + 1) == root.push(sep()));
            }
            assert(!spec_is_within(k, target)) by {
                if spec_is_within(k, target) {
                    lemma_within_two_dirs(k, root, target);
                }
            }
            assert(m0.contains_key(k));
        }
    }
    assert(spec_is_within(ip, root)) by {
        assert(ip.subrange(0, root.len() as int + 1) =~= root.push(sep()));
    }
    assert(!spec_is_within(ip, target)) by {
        if spec_is_within(ip, target) {
            lemma_within_two_dirs(ip, root, target);
        }
    }
    assert((fsm.contains_key(ip) <==> m0.contains_key(ip)) && (m0.contains_key(ip) ==> fsm[ip]
        == m0[ip]));
}

/// The closing save turns the running state into the finished-restore
/// guarantees.
proof fn lemma_restore_conclude(
    m0: Map<Seq<u8>, Seq<u8>>,
    fsm_s: Map<Seq<u8>, Seq<u8>>,
    fsm: Map<Seq<u8>, Seq<u8>>,
    repo_s: Repository,
    repo: Repository,
    items: Seq<ItemModel>,
    root: Seq<u8>,
    target: Seq<u8>,
)
    requires
        items == repo_s.index_view().newest,
        restore_run_inv(m0, fsm_s, items, root, target, items.len() as int),
        disk_doc_ok(fsm_s, root, repo_s),
        repo_s.wf(),
        repo.wf(),
        repo_s.spec_root() == root,
        repo.spec_root() == root,
        crate::index::save_outcome_ok(repo_s.spec_index(), fsm_s, root, repo.spec_index()),
        fsm == fsm_s.insert(
            spec_index_path(root),
            crate::codec::spec_encode_index(repo.index_view()),
        ),
        !spec_is_within(target, root),
        !spec_is_within(root, target),
    ensures
        restore_done(m0, fsm, repo_s, root, target),
        repo.newest_map() == repo_s.newest_map(),
{
    let ip = spec_index_path(root);
    lemma_repo_index_maps(repo_s);
    lemma_repo_index_maps(repo);
    if fsm_s.contains_key(ip) {
        let d = spec_parse_index(fsm_s[ip])->Some_0;
        lemma_merge_newest_dominated(repo_s.newest_map(), item_map_of(d.newest, key_of_path()));
        assert(repo.newest_map() =~= repo_s.newest_map());
    } else {
        assert(repo.newest_map() == repo_s.newest_map());
    }
    assert(spec_is_within(ip, root)) by {
        assert(ip.subrange(0, root.len() as int + 1) =~= root.push(sep()));
    }
    assert(!spec_is_within(ip, target)) by {
        if spec_is_within(ip, target) {
            lemma_within_two_dirs(ip, root, target);
        }
    }
    assert forall|j: int|
        0 <= j < items.len() implies fsm.contains_key(
        #[trigger] spec_target_file(target, items[j].original_source_path),
    ) && fsm[spec_target_file(target, items[j].original_source_path)] == m0[spec_join(
        root,
        items[j].relative_path,
    )] by {
        let tfj = spec_target_file(target, items[j].original_source_path);
        assert(spec_is_within(tfj, target)) by {
            assert(tfj.subrange(0, target.len() as int + 1) =~= target.push(sep()));
        }
        assert(tfj != ip);
        assert(fsm[tfj] == fsm_s[tfj]);
    }
    assert forall|k: Seq<u8>|
        !spec_is_within(k, target) && k != ip implies (#[trigger] fsm.contains_key(k)
        <==> m0.contains_key(k)) && (m0.contains_key(k) ==> fsm[k] == m0[k]) by {
        assert(fsm.contains_key(k) == fsm_s.contains_key(k));
        if fsm.contains_key(k) {
            assert(fsm[k] == fsm_s[k]);
        }
    }
    assert forall|k: Seq<u8>|
        spec_is_within(k, target) && #[trigger] fsm.contains_key(k) && !m0.contains_key(
        k,
    ) implies exists|j: int|
        0 <= j < items.len() && k == spec_target_file(
            target,
            #[trigger] items[j].original_source_path,
        ) by {
        assert(k != ip);
        assert(fsm_s.contains_key(k));
    }
}

} // verus!
