//! The backup engine: walks a source tree and feeds every regular file to
//! the repository, saving the index periodically and once at the end.

use vstd::prelude::*;
use crate::error::BakareError;
use crate::fs::Fs;
use crate::index::{
    spec_index_path, view_wf, key_of_path, key_of_id, item_map_of, merge_newest_maps,
    merge_id_maps, remembered_model, remembered_version, save_outcome_ok,
};
use crate::index_item::ItemModel;
use crate::item_id::digest_of;
use crate::lock::spec_any_lock;
use crate::paths::{
    sep, spec_is_absolute, spec_is_within, spec_starts_with, is_within, lemma_within_two_dirs,
};
use crate::codec::{spec_parse_index, spec_encode_index, view_fits, lemma_parse_index_of_encode};
use crate::repository::{
    Repository, spec_rel_of, spec_object_path, lemma_object_not_index, lemma_object_not_lockname,
    lemma_object_region, lemma_object_path_injective, lemma_repo_index_maps,
};

verus! {

/// Whether `p` names a regular file below the source root `src`.
pub open spec fn src_file(fsm: Map<Seq<u8>, Seq<u8>>, src: Seq<u8>, p: Seq<u8>) -> bool {
    fsm.contains_key(p) && spec_starts_with(p, src.push(sep()))
}

/// The fingerprint of the file at `p`.
pub open spec fn dig_of(m0: Map<Seq<u8>, Seq<u8>>, p: Seq<u8>) -> Seq<u8> {
    digest_of(m0[p])
}

/// Every entry of the path-keyed map `dn` is dominated by `a`: the path is
/// known with at least that version.
pub open spec fn dominated_maps(dn: Map<Seq<u8>, ItemModel>, a: Map<Seq<u8>, ItemModel>) -> bool {
    forall|k: Seq<u8>| #[trigger]
        dn.contains_key(k) ==> a.contains_key(k) && dn[k].version <= a[k].version
}

/// Merging a dominated map changes nothing.
pub proof fn lemma_merge_newest_dominated(a: Map<Seq<u8>, ItemModel>, b: Map<Seq<u8>, ItemModel>)
    requires
        dominated_maps(b, a),
    ensures
        merge_newest_maps(a, b) =~= a,
{
}

/// The on-disk index document under `root` is either absent or loadable
/// and dominated by the in-memory index of `repo`.
pub open spec fn disk_doc_ok(fsm: Map<Seq<u8>, Seq<u8>>, root: Seq<u8>, repo: Repository) -> bool {
    !fsm.contains_key(spec_index_path(root)) || (match spec_parse_index(
        fsm[spec_index_path(root)],
    ) {
        Some(d) => view_wf(d) && dominated_maps(
            item_map_of(d.newest, key_of_path()),
            repo.newest_map(),
        ),
        None => false,
    })
}

/// What must hold of the world for a backup run to be owed success: an
/// absolute source root, no foreign lockfile under the repository root,
/// and an on-disk index document the in-memory index dominates.
pub open spec fn backup_ready(
    fsm: Map<Seq<u8>, Seq<u8>>,
    src: Seq<u8>,
    root: Seq<u8>,
    repo: Repository,
) -> bool {
    &&& spec_is_absolute(src)
    &&& !spec_any_lock(fsm, root)
    &&& disk_doc_ok(fsm, root, repo)
}

/// The running state of one backup pass: `m0` and `a0` are the filesystem
/// and the path-keyed index at the start of the run, `done` the source
/// paths stored so far.
pub open spec fn run_inv(
    fsm: Map<Seq<u8>, Seq<u8>>,
    repo: Repository,
    root: Seq<u8>,
    src: Seq<u8>,
    m0: Map<Seq<u8>, Seq<u8>>,
    a0: Map<Seq<u8>, ItemModel>,
    done: Seq<Seq<u8>>,
) -> bool {
    &&& !spec_any_lock(fsm, root)
    &&& disk_doc_ok(fsm, root, repo)
    &&& forall|k: Seq<u8>|
        #![trigger repo.newest_map().contains_key(k)]
        repo.newest_map().contains_key(k) <==> a0.contains_key(k) || (exists|j: int|
            0 <= j < done.len() && done[j] == k)
    &&& forall|j: int| 0 <= j < done.len() ==> done_item_ok(fsm, repo, root, src, m0, a0, done, j)
    &&& forall|k: Seq<u8>|
        #![trigger a0[k]]
        a0.contains_key(k) && !(exists|j: int| 0 <= j < done.len() && done[j] == k)
            ==> repo.newest_map().contains_key(k) && repo.newest_map()[k] == a0[k]
    &&& forall|k: Seq<u8>| #[trigger] m0.contains_key(k) ==> fsm.contains_key(k)
    &&& forall|k: Seq<u8>|
        #![trigger m0[k]]
        fsm.contains_key(k) && m0.contains_key(k) && k != spec_index_path(root) ==> fsm[k]
            == m0[k]
    &&& forall|k: Seq<u8>|
        #![trigger fsm.contains_key(k)]
        fsm.contains_key(k) ==> m0.contains_key(k) || k == spec_index_path(root) || (exists|
            j: int,
        |
            0 <= j < done.len() && k == spec_object_path(root, dig_of(m0, done[j])))
}

/// What one processed source path contributes to the running state.
pub open spec fn done_item_ok(
    fsm: Map<Seq<u8>, Seq<u8>>,
    repo: Repository,
    root: Seq<u8>,
    src: Seq<u8>,
    m0: Map<Seq<u8>, Seq<u8>>,
    a0: Map<Seq<u8>, ItemModel>,
    done: Seq<Seq<u8>>,
    j: int,
) -> bool {
    let p = done[j];
    let dig = dig_of(m0, p);
    let obj = spec_object_path(root, dig);
    &&& src_file(m0, src, p)
    &&& dig.len() == 64
    &&& repo.newest_map().contains_key(p)
    &&& repo.newest_map()[p] == remembered_model(a0, p, spec_rel_of(dig), dig)
    &&& repo.id_map().contains_key(dig)
    &&& repo.id_map()[dig].relative_path == spec_rel_of(dig)
    &&& repo.id_map()[dig].id == dig
    &&& fsm.contains_key(obj)
    &&& (m0.contains_key(obj) ==> fsm[obj] == m0[obj])
    &&& (!m0.contains_key(obj) ==> exists|j2: int|
        0 <= j2 < done.len() && dig_of(m0, done[j2]) == dig && fsm[obj] == m0[done[j2]])
}

/// One index save preserves the running state and leaves the new document
/// on disk.
proof fn lemma_step_save(
    pre_repo: Repository,
    post_repo: Repository,
    fsm_pre: Map<Seq<u8>, Seq<u8>>,
    fsm_post: Map<Seq<u8>, Seq<u8>>,
    root: Seq<u8>,
    src: Seq<u8>,
    m0: Map<Seq<u8>, Seq<u8>>,
    a0: Map<Seq<u8>, ItemModel>,
    done: Seq<Seq<u8>>,
)
    requires
        run_inv(fsm_pre, pre_repo, root, src, m0, a0, done),
        pre_repo.wf(),
        post_repo.wf(),
        pre_repo.spec_root() == root,
        post_repo.spec_root() == root,
        save_outcome_ok(pre_repo.spec_index(), fsm_pre, root, post_repo.spec_index()),
        fsm_post == fsm_pre.insert(
            spec_index_path(root),
            spec_encode_index(post_repo.index_view()),
        ),
        view_fits(post_repo.index_view()),
        !spec_any_lock(fsm_pre, root),
    ensures
        run_inv(fsm_post, post_repo, root, src, m0, a0, done),
        post_repo.newest_map() == pre_repo.newest_map(),
        forall|k: Seq<u8>| #[trigger]
            pre_repo.id_map().contains_key(k) ==> post_repo.id_map().contains_key(k)
                && post_repo.id_map()[k] == pre_repo.id_map()[k],
        fsm_post.contains_key(spec_index_path(root)),
        fsm_post[spec_index_path(root)] == spec_encode_index(post_repo.index_view()),
{
    let ip = spec_index_path(root);
    lemma_repo_index_maps(pre_repo);
    lemma_repo_index_maps(post_repo);
    // The merge left the in-memory maps where they were.
    if fsm_pre.contains_key(ip) {
        let d = spec_parse_index(fsm_pre[ip])->Some_0;
        let dn = item_map_of(d.newest, key_of_path());
        lemma_merge_newest_dominated(pre_repo.newest_map(), dn);
        assert(post_repo.newest_map() =~= pre_repo.newest_map());
    } else {
        assert(post_repo.newest_map() == pre_repo.newest_map());
    }
    assert forall|k: Seq<u8>| #[trigger]
        pre_repo.id_map().contains_key(k) implies post_repo.id_map().contains_key(k)
        && post_repo.id_map()[k] == pre_repo.id_map()[k] by {
        if fsm_pre.contains_key(ip) {
            let d = spec_parse_index(fsm_pre[ip])->Some_0;
            assert(post_repo.id_map() == merge_id_maps(
                pre_repo.id_map(),
                item_map_of(d.by_id, key_of_id()),
            ));
        }
    }
    // The fresh document on disk is loadable and dominated.
    assert(view_wf(post_repo.index_view())) by {
        assert(post_repo.spec_index().wf());
    }
    lemma_parse_index_of_encode(post_repo.index_view());
    assert(spec_parse_index(fsm_post[ip]) == Some(post_repo.index_view()));
    assert(dominated_maps(
        item_map_of(post_repo.index_view().newest, key_of_path()),
        post_repo.newest_map(),
    ));
    assert(disk_doc_ok(fsm_post, root, post_repo));
    // No lockfile appeared: the index document is not a lockfile.
    assert(!spec_any_lock(fsm_post, root)) by {
        if spec_any_lock(fsm_post, root) {
            let k = choose|k: Seq<u8>|
                fsm_post.contains_key(k) && crate::lock::spec_is_lock_path(k, root);
            if k == ip {
                crate::index::lemma_index_path_not_lock(root, k);
            } else {
                assert(fsm_pre.contains_key(k));
            }
        }
    }
    assert forall|j: int|
        0 <= j < done.len() implies done_item_ok(fsm_post, post_repo, root, src, m0, a0, done, j) by {
        let p = done[j];
        let dig = dig_of(m0, p);
        let obj = spec_object_path(root, dig);
        assert(done_item_ok(fsm_pre, pre_repo, root, src, m0, a0, done, j));
        lemma_object_not_index(root, dig);
        assert(fsm_post.contains_key(obj) && fsm_post[obj] == fsm_pre[obj]);
    }
}

/// The backup engine: a validated pairing of a source root with a
/// repository it is safe to write into.
pub struct Engine {
    source_path: Vec<u8>,
    repository_path: Vec<u8>,
}

impl Engine {
    /// The source root this engine reads.
    pub closed spec fn spec_source(self) -> Seq<u8> {
        self.source_path@
    }

    /// The repository root this engine writes.
    pub closed spec fn spec_repo_root(self) -> Seq<u8> {
        self.repository_path@
    }

    /// Neither tree contains the other.
    pub open spec fn wf(self) -> bool {
        !spec_is_within(self.spec_source(), self.spec_repo_root()) && !spec_is_within(
            self.spec_repo_root(),
            self.spec_source(),
        )
    }

    /// Pairs a source root with a repository, refusing a source that is
    /// the repository, contains it, or lies inside it.  Nothing is read
    /// or written: a refused pairing leaves the repository untouched.
    pub fn new(source_path: &Vec<u8>, repository: &Repository) -> (r: Result<Engine, BakareError>)
        ensures
            match r {
                Ok(e) => e.wf() && e.spec_source() == source_path@ && e.spec_repo_root()
                    == repository.spec_root() && !spec_is_within(
                    source_path@,
                    repository.spec_root(),
                ) && !spec_is_within(repository.spec_root(), source_path@),
                Err(err) => err == BakareError::SourceSameAsRepository && (spec_is_within(
                    source_path@,
                    repository.spec_root(),
                ) || spec_is_within(repository.spec_root(), source_path@)),
            },
    {
        if is_within(source_path, repository.path()) || is_within(repository.path(), source_path) {
            return Err(BakareError::SourceSameAsRepository);
        }
        Ok(Engine { source_path: source_path.clone(), repository_path: repository.path().clone() })
    }

    /// Walks the source tree and stores every regular file below the
    /// source root, saving the index every sixteen entries and once at the
    /// end.  When the world is ready (see [`backup_ready`]) the run
    /// succeeds, every source file's newest revision points at its
    /// content, the stored objects carry the sources' bytes, and nothing
    /// outside the repository root is touched.
    pub fn backup(&self, fs: &mut Fs, repository: &mut Repository) -> (r: Result<
        (),
        BakareError,
    >)
        requires
            self.wf(),
            old(repository).wf(),
            old(fs).wf(),
            old(repository).spec_root() == self.spec_repo_root(),
        ensures
            final(repository).wf(),
            final(fs).wf(),
            final(repository).spec_root() == old(repository).spec_root(),
            forall|k: Seq<u8>|
                #![trigger final(fs)@.contains_key(k)]
                !spec_is_within(k, self.spec_repo_root()) ==> (final(fs)@.contains_key(k)
                    <==> old(fs)@.contains_key(k)) && (old(fs)@.contains_key(k)
                    ==> final(fs)@[k] == old(fs)@[k]),
            backup_ready(
                old(fs)@,
                self.spec_source(),
                self.spec_repo_root(),
                *old(repository),
            ) ==> r is Ok && backup_done(
                old(fs)@,
                final(fs)@,
                *old(repository),
                *final(repository),
                self.spec_source(),
                self.spec_repo_root(),
            ),
    {
        let ghost src = self.spec_source();
        let ghost root = self.spec_repo_root();
        let ghost m0 = fs@;
        let ghost a0 = old(repository).newest_map();
        let ghost ready = backup_ready(m0, src, root, *old(repository));
        let mut walk_prefix = self.source_path.clone();
        walk_prefix.push(47u8);
        proof {
            assert(walk_prefix@ == src.push(sep()));
        }
        let files = fs.keys_with_prefix(&walk_prefix);
        let ghost fl = files@.map_values(|v: Vec<u8>| v@);
        proof {
            assert forall|k: Seq<u8>|
                m0.contains_key(k) && spec_starts_with(k, src.push(sep())) implies exists|j: int|
                0 <= j < fl.len() && #[trigger] fl[j] == k by {
                let j = choose|j: int| 0 <= j < files@.len() && #[trigger] files@[j]@ == k;
                assert(fl[j] == k);
            }
            if ready {
                assert(fl.subrange(0, 0) =~= Seq::<Seq<u8>>::empty());
                assert(run_inv(fs@, *repository, root, src, m0, a0, fl.subrange(0, 0)));
            }
        }
        let mut i: usize = 0;
        while i < files.len()
            invariant
                self.wf(),
                repository.wf(),
                fs.wf(),
                repository.spec_root() == root,
                src == self.spec_source(),
                root == self.spec_repo_root(),
                old(repository).spec_root() == root,
                old(repository).wf(),
                m0 == old(fs)@,
                a0 == old(repository).newest_map(),
                i <= files@.len(),
                fl == files@.map_values(|v: Vec<u8>| v@),
                fl.len() == files@.len(),
                forall|j: int| 0 <= j < fl.len() ==> files@[j]@ == fl[j],
                forall|j: int|
                    0 <= j < fl.len() ==> m0.contains_key(#[trigger] fl[j]) && spec_starts_with(
                        fl[j],
                        src.push(sep()),
                    ),
                forall|k: Seq<u8>|
                    m0.contains_key(k) && spec_starts_with(k, src.push(sep())) ==> exists|j: int|
                        0 <= j < fl.len() && #[trigger] fl[j] == k,
                forall|j1: int, j2: int| 0 <= j1 < j2 < fl.len() ==> fl[j1] != fl[j2],
                ready == backup_ready(m0, src, root, *old(repository)),
                forall|k: Seq<u8>|
                    #![trigger fs@.contains_key(k)]
                    !spec_is_within(k, root) ==> (fs@.contains_key(k) <==> m0.contains_key(k))
                        && (m0.contains_key(k) ==> fs@[k] == m0[k]),
                ready ==> run_inv(fs@, *repository, root, src, m0, a0, fl.subrange(0, i as int)),
            decreases files@.len() - i,
        {
            let ghost done = fl.subrange(0, i as int);
            let ghost done2 = fl.subrange(0, i + 1 as int);
            let ghost fsm_pre = fs@;
            let ghost repo_pre = *repository;
            proof {
                assert(done2.drop_last() =~= done);
                assert(done2.last() == fl[i as int]);
                lemma_object_region(root, dig_of(fs@, fl[i as int]));
                if ready {
                    lemma_store_ready(src, root, fl[i as int]);
                }
            }
            match repository.store(fs, &files[i]) {
                Ok(()) => {},
                Err(e) => {
                    proof {
                        if ready {
                            assert(false);
                        }
                    }
                    return Err(e);
                },
            }
            proof {
                if ready {
                    lemma_after_store(
                        fsm_pre,
                        fs@,
                        repo_pre,
                        *repository,
                        root,
                        src,
                        m0,
                        a0,
                        fl,
                        i as int,
                    );
                }
            }
            i += 1;
            if i % 16 == 0 {
                let ghost fsm_s = fs@;
                let ghost repo_s = *repository;
                proof {
                    lemma_object_region(root, Seq::empty());
                }
                match repository.save_index(fs) {
                    Ok(()) => {},
                    Err(e) => {
                        proof {
                            if ready {
                                assert(false);
                            }
                        }
                        return Err(e);
                    },
                }
                proof {
                    if ready {
                        lemma_step_save(
                            repo_s,
                            *repository,
                            fsm_s,
                            fs@,
                            root,
                            src,
                            m0,
                            a0,
                            done2,
                        );
                    }
                }
            }
        }
        proof {
            assert(fl.subrange(0, fl.len() as int) =~= fl);
        }
        let ghost fsm_s = fs@;
        let ghost repo_s = *repository;
        proof {
            lemma_object_region(root, Seq::empty());
        }
        match repository.save_index(fs) {
            Ok(()) => {},
            Err(e) => {
                proof {
                    if ready {
                        assert(false);
                    }
                }
                return Err(e);
            },
        }
        proof {
            if ready {
                lemma_step_save(repo_s, *repository, fsm_s, fs@, root, src, m0, a0, fl);
                lemma_conclude(m0, fs@, *old(repository), *repository, src, root, a0, fl);
            }
        }
        Ok(())
    }
}

/// What a finished backup run guarantees, stated over the world before and
/// after it.
pub open spec fn backup_done(
    m0: Map<Seq<u8>, Seq<u8>>,
    m1: Map<Seq<u8>, Seq<u8>>,
    repo0: Repository,
    repo1: Repository,
    src: Seq<u8>,
    root: Seq<u8>,
) -> bool {
    let a0 = repo0.newest_map();
    &&& forall|k: Seq<u8>|
        #![trigger repo1.newest_map().contains_key(k)]
        repo1.newest_map().contains_key(k) <==> a0.contains_key(k) || src_file(m0, src, k)
    &&& forall|p: Seq<u8>| #[trigger]
        src_file(m0, src, p) ==> dig_of(m0, p).len() == 64 && repo1.newest_map()[p]
            == remembered_model(a0, p, spec_rel_of(dig_of(m0, p)), dig_of(m0, p))
            && repo1.id_map().contains_key(dig_of(m0, p)) && repo1.id_map()[dig_of(
            m0,
            p,
        )].relative_path == spec_rel_of(dig_of(m0, p)) && repo1.id_map()[dig_of(m0, p)].id
            == dig_of(m0, p)
    &&& forall|k: Seq<u8>|
        #![trigger a0[k]]
        a0.contains_key(k) && !src_file(m0, src, k) ==> repo1.newest_map()[k] == a0[k]
    &&& forall|p: Seq<u8>| #[trigger]
        src_file(m0, src, p) ==> m1.contains_key(spec_object_path(root, dig_of(m0, p))) && (
        m0.contains_key(spec_object_path(root, dig_of(m0, p))) ==> m1[spec_object_path(
            root,
            dig_of(m0, p),
        )] == m0[spec_object_path(root, dig_of(m0, p))]) && (!m0.contains_key(
            spec_object_path(root, dig_of(m0, p)),
        ) ==> exists|p2: Seq<u8>|
            #![trigger m0[p2]]
            src_file(m0, src, p2) && dig_of(m0, p2) == dig_of(m0, p) && m1[spec_object_path(
                root,
                dig_of(m0, p),
            )] == m0[p2])
    &&& m1.contains_key(spec_index_path(root))
    &&& m1[spec_index_path(root)] == spec_encode_index(repo1.index_view())
    &&& view_fits(repo1.index_view())
    &&& !spec_any_lock(m1, root)
    &&& disk_doc_ok(m1, root, repo1)
    &&& forall|k: Seq<u8>| #[trigger] m0.contains_key(k) ==> m1.contains_key(k)
    &&& forall|k: Seq<u8>|
        #![trigger m0[k]]
        m1.contains_key(k) && m0.contains_key(k) && k != spec_index_path(root) ==> m1[k] == m0[k]
    &&& forall|k: Seq<u8>|
        #![trigger m1.contains_key(k)]
        m1.contains_key(k) ==> m0.contains_key(k) || k == spec_index_path(root) || (exists|
            p: Seq<u8>,
        |
            src_file(m0, src, p) && k == spec_object_path(root, dig_of(m0, p)))
}

/// Inside a ready run, a source file is absolute and outside the
/// repository, so `store` cannot fail on it.
proof fn lemma_store_ready(src: Seq<u8>, root: Seq<u8>, p: Seq<u8>)
    requires
        spec_is_absolute(src),
        spec_starts_with(p, src.push(sep())),
        !spec_is_within(src, root),
        !spec_is_within(root, src),
    ensures
        spec_is_absolute(p),
        !spec_is_within(p, root),
        p != spec_index_path(root),
{
    assert(p[0] == src.push(sep())[0]) by {
        assert(p.subrange(0, src.len() as int + 1) == src.push(sep()));
        assert(p.subrange(0, src.len() as int + 1)[0] == p[0]);
    }
    assert(spec_is_within(p, src));
    if spec_is_within(p, root) {
        lemma_within_two_dirs(p, src, root);
    }
    lemma_object_region(root, Seq::empty());
    if p == spec_index_path(root) {
        assert(spec_is_within(spec_index_path(root), root));
    }
}

/// One store of an unprocessed source file extends the running state by
/// that file.
proof fn lemma_after_store(
    fsm_pre: Map<Seq<u8>, Seq<u8>>,
    fsm: Map<Seq<u8>, Seq<u8>>,
    repo_pre: Repository,
    repo: Repository,
    root: Seq<u8>,
    src: Seq<u8>,
    m0: Map<Seq<u8>, Seq<u8>>,
    a0: Map<Seq<u8>, ItemModel>,
    fl: Seq<Seq<u8>>,
    i: int,
)
    requires
        0 <= i < fl.len(),
        run_inv(fsm_pre, repo_pre, root, src, m0, a0, fl.subrange(0, i)),
        forall|j: int|
            0 <= j < fl.len() ==> m0.contains_key(#[trigger] fl[j]) && spec_starts_with(
                fl[j],
                src.push(sep()),
            ),
        forall|j1: int, j2: int| 0 <= j1 < j2 < fl.len() ==> fl[j1] != fl[j2],
        spec_is_absolute(src),
        !spec_is_within(src, root),
        !spec_is_within(root, src),
        repo_pre.spec_root() == root,
        repo.spec_root() == root,
        // What store guarantees, with the old world named `_pre`:
        fsm_pre.contains_key(fl[i]),
        dig_of(fsm_pre, fl[i]).len() == 64,
        repo.newest_map() == repo_pre.newest_map().insert(
            fl[i],
            remembered_model(
                repo_pre.newest_map(),
                fl[i],
                spec_rel_of(dig_of(fsm_pre, fl[i])),
                dig_of(fsm_pre, fl[i]),
            ),
        ),
        repo.id_map() == repo_pre.id_map().insert(
            dig_of(fsm_pre, fl[i]),
            remembered_model(
                repo_pre.newest_map(),
                fl[i],
                spec_rel_of(dig_of(fsm_pre, fl[i])),
                dig_of(fsm_pre, fl[i]),
            ),
        ),
        fsm == if fsm_pre.contains_key(spec_object_path(root, dig_of(fsm_pre, fl[i]))) {
            fsm_pre
        } else {
            fsm_pre.insert(
                spec_object_path(root, dig_of(fsm_pre, fl[i])),
                fsm_pre[fl[i]],
            )
        },
    ensures
        run_inv(fsm, repo, root, src, m0, a0, fl.subrange(0, i + 1)),
    decreases 0int,
{
    let done = fl.subrange(0, i);
    let done2 = fl.subrange(0, i + 1);
    let p = fl[i];
    let ip = spec_index_path(root);
    assert(done2.drop_last() =~= done);
    assert(done2.last() == p);
    assert(forall|j: int| 0 <= j < i ==> fl[j] != p);
    lemma_store_ready(src, root, p);
    // The file's bytes are still the original ones.
    assert(fsm_pre[p] == m0[p]);
    let dig = dig_of(m0, p);
    assert(dig_of(fsm_pre, p) == dig);
    let obj = spec_object_path(root, dig);
    let model = remembered_model(repo_pre.newest_map(), p, spec_rel_of(dig), dig);
    // The recorded version is the one promised against the initial index.
    assert(model == remembered_model(a0, p, spec_rel_of(dig), dig)) by {
        assert(repo_pre.newest_map().contains_key(p) <==> a0.contains_key(p)) by {
            if exists|j: int| 0 <= j < done.len() && done[j] == p {
                let j = choose|j: int| 0 <= j < done.len() && done[j] == p;
                assert(fl[j] == p);
                assert(false);
            }
        }
        if a0.contains_key(p) {
            assert(repo_pre.newest_map()[p] == a0[p]);
        }
    }
    lemma_object_not_index(root, dig);
    lemma_object_not_lockname(root, dig);
    lemma_object_region(root, dig);
    assert(!spec_any_lock(fsm, root)) by {
        if spec_any_lock(fsm, root) {
            let k = choose|k: Seq<u8>|
                fsm.contains_key(k) && crate::lock::spec_is_lock_path(k, root);
            assert(fsm_pre.contains_key(k) || k == obj);
        }
    }
    assert(disk_doc_ok(fsm, root, repo)) by {
        if fsm.contains_key(ip) {
            assert(fsm_pre.contains_key(ip) && fsm[ip] == fsm_pre[ip]);
            let d = spec_parse_index(fsm_pre[ip])->Some_0;
            let dn = item_map_of(d.newest, key_of_path());
            assert forall|k: Seq<u8>| #[trigger]
                dn.contains_key(k) implies repo.newest_map().contains_key(k) && dn[k].version
                <= repo.newest_map()[k].version by {
                if k == p {
                    assert(repo_pre.newest_map().contains_key(p));
                    assert(model.version == remembered_version(repo_pre.newest_map(), p));
                    assert(model.version >= repo_pre.newest_map()[p].version);
                }
            }
        }
    }
    // Each previously processed file keeps its facts.
    assert forall|j: int|
        0 <= j < done2.len() implies done_item_ok(fsm, repo, root, src, m0, a0, done2, j) by {
        if j < i {
            assert(done_item_ok(fsm_pre, repo_pre, root, src, m0, a0, done, j));
            let pj = done[j];
            let digj = dig_of(m0, pj);
            let objj = spec_object_path(root, digj);
            assert(done2[j] == pj);
            assert(pj != p);
            assert(repo.newest_map()[pj] == repo_pre.newest_map()[pj]);
            if digj == dig {
                assert(repo.id_map()[digj].relative_path == spec_rel_of(digj));
                assert(repo.id_map()[digj].id == digj);
            }
            if objj == obj {
                lemma_object_path_injective(root, digj, dig);
            }
            assert(fsm.contains_key(objj) && fsm[objj] == fsm_pre[objj]) by {
                if !fsm_pre.contains_key(obj) {
                    assert(objj != obj);
                }
            }
            if m0.contains_key(objj) {
                assert(fsm[objj] == m0[objj]);
            } else {
                let j2 = choose|j2: int|
                    0 <= j2 < done.len() && dig_of(m0, done[j2]) == digj && fsm_pre[objj] == m0[done[j2]];
                assert(done2[j2] == done[j2]);
                assert(dig_of(m0, done2[j2]) == digj && fsm[objj] == m0[done2[j2]]);
            }
        } else {
            // The fresh file.
            assert(done2[j] == p);
            assert(src_file(m0, src, p));
            assert(repo.newest_map()[p] == model);
            assert(repo.id_map()[dig] == model);
            if fsm_pre.contains_key(obj) {
                assert(fsm.contains_key(obj));
                if m0.contains_key(obj) {
                    assert(fsm[obj] == m0[obj]);
                } else {
                    assert(fsm_pre.contains_key(obj));
                    if obj == ip {
                        assert(false);
                    }
                    let j2 = choose|j2: int|
                        0 <= j2 < done.len() && obj == spec_object_path(
                            root,
                            dig_of(m0, done[j2]),
                        );
                    lemma_object_path_injective(root, dig_of(m0, done[j2]), dig);
                    assert(done_item_ok(fsm_pre, repo_pre, root, src, m0, a0, done, j2));
                    let j3 = choose|j3: int|
                        0 <= j3 < done.len() && dig_of(m0, done[j3]) == dig_of(m0, done[j2])
                            && fsm_pre[obj] == m0[done[j3]];
                    assert(done2[j3] == done[j3]);
                    assert(dig_of(m0, done2[j3]) == dig && fsm[obj] == m0[done2[j3]]);
                }
            } else {
                assert(!m0.contains_key(obj));
                assert(fsm[obj] == m0[p]);
                assert(dig_of(m0, done2[i]) == dig && fsm[obj] == m0[done2[i]]);
            }
        }
    }
    // Domain of the newest map.
    assert forall|k: Seq<u8>|
        #![trigger repo.newest_map().contains_key(k)]
        repo.newest_map().contains_key(k) <==> a0.contains_key(k) || (exists|j: int|
            0 <= j < done2.len() && done2[j] == k) by {
        if k == p {
            assert(done2[i as int] == p);
        } else {
            assert(repo.newest_map().contains_key(k) == repo_pre.newest_map().contains_key(k));
            if exists|j: int| 0 <= j < done2.len() && done2[j] == k {
                let j = choose|j: int| 0 <= j < done2.len() && done2[j] == k;
                assert(j < i);
                assert(done[j] == k);
            } else {
                if exists|j: int| 0 <= j < done.len() && done[j] == k {
                    let j = choose|j: int| 0 <= j < done.len() && done[j] == k;
                    assert(done2[j] == k);
                }
            }
        }
    }
    // Untouched index entries.
    assert forall|k: Seq<u8>|
        a0.contains_key(k) && !(exists|j: int|
            0 <= j < done2.len() && done2[j] == k) implies repo.newest_map().contains_key(k)
        && #[trigger] repo.newest_map()[k] == a0[k] by {
        assert(k != p) by {
            if k == p {
                assert(done2[i as int] == k);
            }
        }
        assert(!(exists|j: int| 0 <= j < done.len() && done[j] == k)) by {
            if exists|j: int| 0 <= j < done.len() && done[j] == k {
                let j = choose|j: int| 0 <= j < done.len() && done[j] == k;
                assert(done2[j] == k);
            }
        }
    }
    // Filesystem bookkeeping.
    assert forall|k: Seq<u8>| #[trigger] m0.contains_key(k) implies fsm.contains_key(k) by {
        assert(fsm_pre.contains_key(k));
    }
    assert forall|k: Seq<u8>|
        fsm.contains_key(k) && m0.contains_key(k) && k != ip implies #[trigger] fsm[k]
        == m0[k] by {
        if k == obj && !fsm_pre.contains_key(obj) {
            assert(false);
        } else {
            assert(fsm[k] == fsm_pre[k]);
        }
    }
    assert forall|k: Seq<u8>| #[trigger]
        fsm.contains_key(k) implies m0.contains_key(k) || k == ip || (exists|j: int|
        0 <= j < done2.len() && k == spec_object_path(root, dig_of(m0, done2[j]))) by {
        if k == obj {
            assert(done2[i as int] == p);
            assert(k == spec_object_path(root, dig_of(m0, done2[i as int])));
        } else {
            assert(fsm_pre.contains_key(k));
            if !m0.contains_key(k) && k != ip {
                let j = choose|j: int|
                    0 <= j < done.len() && k == spec_object_path(root, dig_of(m0, done[j]));
                assert(done2[j] == done[j]);
                assert(k == spec_object_path(root, dig_of(m0, done2[j])));
            }
        }
    }
}

/// At the end of a run the invariant over the full walk list gives the
/// finished-backup guarantees.
proof fn lemma_conclude(
    m0: Map<Seq<u8>, Seq<u8>>,
    m1: Map<Seq<u8>, Seq<u8>>,
    repo0: Repository,
    repo1: Repository,
    src: Seq<u8>,
    root: Seq<u8>,
    a0: Map<Seq<u8>, ItemModel>,
    fl: Seq<Seq<u8>>,
)
    requires
        run_inv(m1, repo1, root, src, m0, a0, fl),
        a0 == repo0.newest_map(),
        forall|j: int|
            0 <= j < fl.len() ==> m0.contains_key(#[trigger] fl[j]) && spec_starts_with(
                fl[j],
                src.push(sep()),
            ),
        forall|k: Seq<u8>|
            m0.contains_key(k) && spec_starts_with(k, src.push(sep())) ==> exists|j: int|
                0 <= j < fl.len() && #[trigger] fl[j] == k,
        m1.contains_key(spec_index_path(root)),
        m1[spec_index_path(root)] == spec_encode_index(repo1.index_view()),
        view_fits(repo1.index_view()),
    ensures
        backup_done(m0, m1, repo0, repo1, src, root),
{
    assert forall|p: Seq<u8>| #[trigger]
        src_file(m0, src, p) implies dig_of(m0, p).len() == 64 && repo1.newest_map()[p]
        == remembered_model(a0, p, spec_rel_of(dig_of(m0, p)), dig_of(m0, p))
        && repo1.id_map().contains_key(dig_of(m0, p)) && repo1.id_map()[dig_of(
        m0,
        p,
    )].relative_path == spec_rel_of(dig_of(m0, p)) && repo1.id_map()[dig_of(m0, p)].id == dig_of(
        m0,
        p,
    ) && m1.contains_key(spec_object_path(root, dig_of(m0, p))) && (m0.contains_key(
        spec_object_path(root, dig_of(m0, p)),
    ) ==> m1[spec_object_path(root, dig_of(m0, p))] == m0[spec_object_path(
        root,
        dig_of(m0, p),
    )]) && (!m0.contains_key(spec_object_path(root, dig_of(m0, p))) ==> exists|p2: Seq<u8>|
        #![trigger m0[p2]]
        src_file(m0, src, p2) && dig_of(m0, p2) == dig_of(m0, p) && m1[spec_object_path(
            root,
            dig_of(m0, p),
        )] == m0[p2]) by {
        let j = choose|j: int| 0 <= j < fl.len() && #[trigger] fl[j] == p;
        assert(done_item_ok(m1, repo1, root, src, m0, a0, fl, j));
        if !m0.contains_key(spec_object_path(root, dig_of(m0, p))) {
            let j2 = choose|j2: int|
                0 <= j2 < fl.len() && dig_of(m0, fl[j2]) == dig_of(m0, p) && m1[spec_object_path(
                    root,
                    dig_of(m0, p),
                )] == m0[fl[j2]];
            assert(src_file(m0, src, fl[j2]));
            assert(m1[spec_object_path(root, dig_of(m0, p))] == m0[fl[j2]]);
        }
    }
    assert forall|k: Seq<u8>|
        #![trigger repo1.newest_map().contains_key(k)]
        repo1.newest_map().contains_key(k) <==> a0.contains_key(k) || src_file(m0, src, k) by {
        if repo1.newest_map().contains_key(k) && !a0.contains_key(k) {
            let j = choose|j: int| 0 <= j < fl.len() && fl[j] == k;
            assert(src_file(m0, src, k));
        }
        if src_file(m0, src, k) {
            let j = choose|j: int| 0 <= j < fl.len() && #[trigger] fl[j] == k;
        }
    }
    assert forall|k: Seq<u8>|
        a0.contains_key(k) && !src_file(m0, src, k) implies #[trigger] repo1.newest_map()[k]
        == a0[k] by {
        if exists|j: int| 0 <= j < fl.len() && fl[j] == k {
            let j = choose|j: int| 0 <= j < fl.len() && fl[j] == k;
            assert(src_file(m0, src, k));
        }
    }
    assert forall|k: Seq<u8>| #[trigger]
        m1.contains_key(k) implies m0.contains_key(k) || k == spec_index_path(root) || (exists|
        p: Seq<u8>,
    |
        src_file(m0, src, p) && k == spec_object_path(root, dig_of(m0, p))) by {
        if !m0.contains_key(k) && k != spec_index_path(root) {
            let j = choose|j: int|
                0 <= j < fl.len() && k == spec_object_path(root, dig_of(m0, fl[j]));
            assert(src_file(m0, src, fl[j]) && k == spec_object_path(root, dig_of(m0, fl[j])));
        }
    }
}

} // verus!
