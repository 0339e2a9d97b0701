//! The repository: a content-addressed object store bound to an index.
//!
//! A repository lives under one root directory: objects under `data/`,
//! named by the lowercase hex of their content fingerprint, and the index
//! document beside them.  `store` deduplicates by fingerprint and updates
//! the in-memory index only; `save_index` runs the merge-on-save protocol.

use vstd::prelude::*;
use crate::error::BakareError;
use crate::fs::Fs;
use crate::index::{Index, spec_index_path, save_outcome_ok, remembered_model};
use crate::lock::spec_any_lock;
use crate::index_item::{IndexItem, ItemModel};
use crate::item_id::{ItemId, digest_of, hex_of, lemma_hex_of_len, lemma_hex_of_injective, hex_digit};
use crate::lock::{spec_is_lock_path, lock_suffix};
use crate::paths::{
    sep, spec_is_absolute, spec_is_within, spec_join, spec_starts_with, is_absolute, is_within,
    join,
};
use crate::repository_item::{RepositoryItem, RepoItemModel};

verus! {

/// The name of the object directory under the repository root.
pub open spec fn data_name() -> Seq<u8> {
    seq![100u8, 97u8, 116u8, 97u8]
}

/// The object directory's name followed by a separator, as a relative
/// path prefix.
pub open spec fn data_rel_prefix() -> Seq<u8> {
    seq![100u8, 97u8, 116u8, 97u8, 47u8]
}

/// The path, relative to the repository root, where content with the given
/// fingerprint is stored.
pub open spec fn spec_rel_of(id: Seq<u8>) -> Seq<u8> {
    data_rel_prefix() + hex_of(id)
}

/// The absolute path of the object holding content with the given
/// fingerprint.
pub open spec fn spec_object_path(root: Seq<u8>, id: Seq<u8>) -> Seq<u8> {
    spec_join(root, spec_rel_of(id))
}

/// The absolute prefix under which all of a repository's objects live.
pub open spec fn spec_data_prefix(root: Seq<u8>) -> Seq<u8> {
    spec_join(root, data_name()).push(sep())
}

/// The restorable form of an index item under the given root.
pub open spec fn repo_item_model_of(root: Seq<u8>, m: ItemModel) -> RepoItemModel {
    RepoItemModel {
        relative_path: m.relative_path,
        absolute_path: spec_join(root, m.relative_path),
        original_source_path: m.original_source_path,
        id: m.id,
        version: m.version,
    }
}

/// A place where backups are stored and can be restored from: the
/// repository root on the filesystem, and the newest known index.
#[derive(Debug)]
pub struct Repository {
    path: Vec<u8>,
    index: Index,
}

/// Walks the newest restorable revisions of a repository, in storage
/// order.
pub struct RepositoryItemIterator {
    items: Vec<RepositoryItem>,
    pos: usize,
}

impl RepositoryItemIterator {
    /// The items not yet handed out.
    pub closed spec fn remaining(self) -> Seq<RepoItemModel> {
        if self.pos as int <= self.items@.len() {
            self.items@.map_values(|it: RepositoryItem| it@).skip(self.pos as int)
        } else {
            Seq::empty()
        }
    }

    /// How many items are still to come.
    pub fn count_remaining(&self) -> (r: usize)
        ensures
            r as int == self.remaining().len(),
    {
        if self.pos <= self.items.len() {
            self.items.len() - self.pos
        } else {
            proof {
                assert(self.remaining() =~= Seq::<RepoItemModel>::empty());
            }
            0
        }
    }

    /// The next item, or nothing once all have been handed out.
    pub fn next(&mut self) -> (r: Option<RepositoryItem>)
        ensures
            match r {
                Some(it) => old(self).remaining().len() > 0 && it@ == old(self).remaining()[0]
                    && final(self).remaining() == old(self).remaining().skip(1),
                None => old(self).remaining().len() == 0 && final(self).remaining() == old(
                    self,
                ).remaining(),
            },
    {
        if self.pos < self.items.len() {
            let it = self.items[self.pos].duplicate();
            self.pos += 1;
            proof {
                assert(final(self).remaining() =~= old(self).remaining().skip(1));
            }
            Some(it)
        } else {
            proof {
                if old(self).pos as int <= old(self).items@.len() {
                    assert(old(self).remaining() =~= Seq::<RepoItemModel>::empty());
                }
            }
            None
        }
    }
}

impl Repository {
    /// The repository root.
    pub closed spec fn spec_root(self) -> Seq<u8> {
        self.path@
    }

    /// The in-memory index's view.
    pub closed spec fn index_view(self) -> crate::index::IndexView {
        self.index@
    }

    /// The newest revision of every source path the index knows.
    pub open spec fn newest_map(self) -> Map<Seq<u8>, ItemModel> {
        crate::index::item_map_of(self.index_view().newest, crate::index::key_of_path())
    }

    /// The introducing revision of every fingerprint the index knows.
    pub open spec fn id_map(self) -> Map<Seq<u8>, ItemModel> {
        crate::index::item_map_of(self.index_view().by_id, crate::index::key_of_id())
    }

    /// The root is absolute and the index is internally consistent.
    pub closed spec fn wf(self) -> bool {
        self.index.wf() && spec_is_absolute(self.path@)
    }

    /// Creates a repository under `path`: saves an empty index document.
    /// On a fresh root the document written is exactly the encoding of the
    /// fresh empty index; on a root that already holds a loadable document
    /// the items are kept and only the document version moves, as one more
    /// save would do.  Success is owed whenever no lockfile is present and
    /// any existing document is loadable.
    pub fn init(fs: &mut Fs, path: &Vec<u8>) -> (r: Result<(), BakareError>)
        requires
            old(fs).wf(),
        ensures
            final(fs).wf(),
            match r {
                Ok(()) => !spec_any_lock(old(fs)@, path@) && (
                if !old(fs)@.contains_key(spec_index_path(path@)) {
                    final(fs)@ == old(fs)@.insert(
                        spec_index_path(path@),
                        crate::codec::spec_encode_index(crate::index::spec_fresh_index_view()),
                    )
                } else {
                    match crate::codec::spec_parse_index(old(fs)@[spec_index_path(path@)]) {
                        Some(d) => crate::index::view_wf(d) && (exists|
                            v: crate::index::IndexView,
                        |
                            {
                                &&& #[trigger] crate::codec::spec_encode_index(v)
                                    == final(fs)@[spec_index_path(path@)]
                                &&& crate::index::view_wf(v)
                                &&& crate::index::item_map_of(v.newest, crate::index::key_of_path())
                                    == crate::index::item_map_of(
                                    d.newest,
                                    crate::index::key_of_path(),
                                )
                                &&& crate::index::item_map_of(v.by_id, crate::index::key_of_id())
                                    == crate::index::item_map_of(d.by_id, crate::index::key_of_id())
                                &&& v.version == crate::index::vnext(
                                    if d.version > 1 {
                                        d.version
                                    } else {
                                        1
                                    },
                                )
                                &&& final(fs)@ == old(fs)@.insert(
                                    spec_index_path(path@),
                                    crate::codec::spec_encode_index(v),
                                )
                            }),
                        None => false,
                    }
                }),
                Err(e) => final(fs)@ == old(fs)@ && ((e == BakareError::LockTimeout
                    && spec_any_lock(old(fs)@, path@)) || (e == BakareError::IndexLoadingError
                    && !spec_any_lock(old(fs)@, path@) && old(fs)@.contains_key(
                    spec_index_path(path@),
                ) && (match crate::codec::spec_parse_index(old(fs)@[spec_index_path(path@)]) {
                    None => true,
                    Some(v) => !crate::index::view_wf(v),
                }))),
            },
            forall|prefix: Seq<u8>|
                (r is Err || !spec_starts_with(spec_index_path(path@), prefix))
                    ==> final(fs).spec_weight(prefix) == old(fs).spec_weight(prefix),
    {
        let mut index = Index::new();
        let ghost ip = spec_index_path(path@);
        match index.save(fs, path) {
            Ok(()) => {
                proof {
                    if !old(fs)@.contains_key(ip) {
                        // The saved index is exactly the fresh empty one.
                        assert(index.newest_map() =~= Map::<Seq<u8>, ItemModel>::empty());
                        assert(index.id_map() =~= Map::<Seq<u8>, ItemModel>::empty());
                        crate::index::lemma_item_map_membership(
                            index@.newest,
                            crate::index::key_of_path(),
                        );
                        crate::index::lemma_item_map_membership(
                            index@.by_id,
                            crate::index::key_of_id(),
                        );
                        assert(index@.newest.len() == 0) by {
                            if index@.newest.len() > 0 {
                                assert(index.newest_map().contains_key(
                                    crate::index::key_of_path()(index@.newest[0]),
                                ));
                            }
                        }
                        assert(index@.by_id.len() == 0) by {
                            if index@.by_id.len() > 0 {
                                assert(index.id_map().contains_key(
                                    crate::index::key_of_id()(index@.by_id[0]),
                                ));
                            }
                        }
                        assert(index@.newest =~= Seq::<ItemModel>::empty());
                        assert(index@.by_id =~= Seq::<ItemModel>::empty());
                        assert(index@ == crate::index::spec_fresh_index_view());
                    } else {
                        // The merged index carries the document's items.
                        let d = crate::codec::spec_parse_index(old(fs)@[ip])->Some_0;
                        assert(index.newest_map() =~= crate::index::item_map_of(
                            d.newest,
                            crate::index::key_of_path(),
                        )) by {
                            assert(index.newest_map() == crate::index::merge_newest_maps(
                                crate::index::item_map_of(
                                    Seq::<ItemModel>::empty(),
                                    crate::index::key_of_path(),
                                ),
                                crate::index::item_map_of(d.newest, crate::index::key_of_path()),
                            ));
                        }
                        assert(index.id_map() =~= crate::index::item_map_of(
                            d.by_id,
                            crate::index::key_of_id(),
                        )) by {
                            assert(index.id_map() == crate::index::merge_id_maps(
                                crate::index::item_map_of(
                                    Seq::<ItemModel>::empty(),
                                    crate::index::key_of_id(),
                                ),
                                crate::index::item_map_of(d.by_id, crate::index::key_of_id()),
                            ));
                        }
                        assert(crate::index::view_wf(index@));
                        assert(crate::codec::spec_encode_index(index@) == final(fs)@[ip]);
                    }
                }
                Ok(())
            },
            Err(e) => Err(e),
        }
    }

    /// Opens the repository under `path`, loading a fresh in-memory index
    /// from its on-disk document.
    pub fn open(fs: &mut Fs, path: &Vec<u8>) -> (r: Result<Repository, BakareError>)
        requires
            old(fs).wf(),
        ensures
            final(fs).wf(),
            match r {
                Ok(repo) => repo.wf() && repo.spec_root() == path@ && spec_is_absolute(path@) && (
                if old(fs)@.contains_key(spec_index_path(path@)) {
                    crate::codec::spec_parse_index(old(fs)@[spec_index_path(path@)]) == Some(
                        repo.index_view(),
                    ) && final(fs)@ == old(fs)@
                } else {
                    repo.index_view().newest.len() == 0 && repo.index_view().by_id.len() == 0
                        && repo.index_view().version == 2 && final(fs)@ == old(fs)@.insert(
                        spec_index_path(path@),
                        crate::codec::spec_encode_index(repo.index_view()),
                    )
                }),
                Err(e) => final(fs)@ == old(fs)@ && ((e == BakareError::RepositoryPathNotAbsolute
                    && !spec_is_absolute(path@)) || (e == BakareError::LockTimeout
                    && spec_any_lock(old(fs)@, path@)) || (e == BakareError::IndexLoadingError
                    && old(fs)@.contains_key(spec_index_path(path@)) && (match
                    crate::codec::spec_parse_index(old(fs)@[spec_index_path(path@)]) {
                    None => true,
                    Some(v) => !crate::index::view_wf(v),
                }))),
            },
            forall|prefix: Seq<u8>|
                (old(fs)@.contains_key(spec_index_path(path@)) || !spec_starts_with(
                    spec_index_path(path@),
                    prefix,
                )) ==> final(fs).spec_weight(prefix) == old(fs).spec_weight(prefix),
    {
        if !is_absolute(path) {
            return Err(BakareError::RepositoryPathNotAbsolute);
        }
        let index = match Index::load(fs, path) {
            Ok(ix) => ix,
            Err(e) => {
                return Err(e);
            },
        };
        Ok(Repository { path: path.clone(), index })
    }

    /// The repository root path.
    pub fn path(&self) -> (r: &Vec<u8>)
        ensures
            r@ == self.spec_root(),
    {
        &self.path
    }

    /// Stores the regular file at `source_path` into the repository:
    /// computes its content fingerprint, copies the bytes into the object
    /// store unless an object of that fingerprint already exists, and
    /// records the new revision in the in-memory index.  The index is not
    /// saved.  A path with no regular file behind it is skipped silently;
    /// a path inside the repository itself is refused.
    pub fn store(&mut self, fs: &mut Fs, source_path: &Vec<u8>) -> (r: Result<(), BakareError>)
        requires
            old(self).wf(),
            old(fs).wf(),
        ensures
            final(self).wf(),
            final(fs).wf(),
            final(self).spec_root() == old(self).spec_root(),
            match r {
                Ok(()) => spec_is_absolute(source_path@) && !spec_is_within(
                    source_path@,
                    old(self).spec_root(),
                ) && (if !old(fs)@.contains_key(source_path@) {
                    *final(fs) == *old(fs) && *final(self) == *old(self)
                } else {
                    digest_of(old(fs)@[source_path@]).len() == 64
                        && final(self).newest_map() == old(self).newest_map().insert(
                        source_path@,
                        remembered_model(
                            old(self).newest_map(),
                            source_path@,
                            spec_rel_of(digest_of(old(fs)@[source_path@])),
                            digest_of(old(fs)@[source_path@]),
                        ),
                    ) && final(self).id_map() == old(self).id_map().insert(
                        digest_of(old(fs)@[source_path@]),
                        remembered_model(
                            old(self).newest_map(),
                            source_path@,
                            spec_rel_of(digest_of(old(fs)@[source_path@])),
                            digest_of(old(fs)@[source_path@]),
                        ),
                    ) && final(self).index_view().version == old(self).index_view().version && (
                    if old(fs)@.contains_key(
                        spec_object_path(old(self).spec_root(), digest_of(old(fs)@[source_path@])),
                    ) {
                        *final(fs) == *old(fs)
                    } else {
                        final(fs)@ == old(fs)@.insert(
                            spec_object_path(
                                old(self).spec_root(),
                                digest_of(old(fs)@[source_path@]),
                            ),
                            old(fs)@[source_path@],
                        ) && (forall|prefix: Seq<u8>|
                            final(fs).spec_weight(prefix) == old(fs).spec_weight(prefix) + (
                            if spec_starts_with(
                                spec_object_path(
                                    old(self).spec_root(),
                                    digest_of(old(fs)@[source_path@]),
                                ),
                                prefix,
                            ) {
                                old(fs)@[source_path@].len() as int
                            } else {
                                0
                            }))
                    })
                }),
                Err(e) => *final(fs) == *old(fs) && *final(self) == *old(self) && ((e
                    == BakareError::PathToStoreNotAbsolute && !spec_is_absolute(source_path@)) || (
                e == BakareError::SourceSameAsRepository && spec_is_absolute(source_path@)
                    && spec_is_within(source_path@, old(self).spec_root()))),
            },
    {
        if !is_absolute(source_path) {
            return Err(BakareError::PathToStoreNotAbsolute);
        }
        if is_within(source_path, &self.path) {
            return Err(BakareError::SourceSameAsRepository);
        }
        let contents: Vec<u8> = match fs.read(source_path) {
            Some(c) => c.clone(),
            None => {
                return Ok(());
            },
        };
        let id = ItemId::of(&contents);
        let hexname = id.to_hex();
        let mut rel: Vec<u8> = vec![100u8, 97u8, 116u8, 97u8, 47u8];
        let mut hx = hexname;
        rel.append(&mut hx);
        proof {
            assert(rel@ =~= spec_rel_of(id@));
        }
        let obj = join(&self.path, &rel);
        if !fs.contains_path(&obj) {
            fs.write(&obj, contents);
        }
        self.index.remember(source_path, &rel, id);
        Ok(())
    }

    /// Runs the index save protocol against this repository's root.
    pub fn save_index(&mut self, fs: &mut Fs) -> (r: Result<(), BakareError>)
        requires
            old(self).wf(),
            old(fs).wf(),
        ensures
            final(self).wf(),
            final(fs).wf(),
            final(self).spec_root() == old(self).spec_root(),
            match r {
                Ok(()) => !spec_any_lock(old(fs)@, old(self).spec_root()) && save_outcome_ok(
                    old(self).spec_index(),
                    old(fs)@,
                    old(self).spec_root(),
                    final(self).spec_index(),
                ) && final(fs)@ == old(fs)@.insert(
                    spec_index_path(old(self).spec_root()),
                    crate::codec::spec_encode_index(final(self).index_view()),
                ) && crate::codec::view_fits(final(self).index_view()),
                Err(e) => final(fs)@ == old(fs)@ && *final(self) == *old(self) && ((e
                    == BakareError::LockTimeout && spec_any_lock(
                    old(fs)@,
                    old(self).spec_root(),
                )) || (e == BakareError::IndexLoadingError && !spec_any_lock(
                    old(fs)@,
                    old(self).spec_root(),
                ) && old(fs)@.contains_key(spec_index_path(old(self).spec_root())) && (match
                    crate::codec::spec_parse_index(
                    old(fs)@[spec_index_path(old(self).spec_root())],
                ) {
                    None => true,
                    Some(v) => !crate::index::view_wf(v),
                }))),
            },
            forall|prefix: Seq<u8>|
                (r is Err || !spec_starts_with(spec_index_path(old(self).spec_root()), prefix))
                    ==> final(fs).spec_weight(prefix) == old(fs).spec_weight(prefix),
    {
        self.index.save(fs, &self.path)
    }

    /// The in-memory index as a value, for stating what a save merged.
    pub closed spec fn spec_index(self) -> Index {
        self.index
    }

    /// The newest restorable revision of the given absolute source path.
    pub fn newest_item_by_source_path(&self, path: &Vec<u8>) -> (r: Result<
        Option<RepositoryItem>,
        BakareError,
    >)
        requires
            self.wf(),
        ensures
            match r {
                Ok(Some(it)) => spec_is_absolute(path@) && self.newest_map().contains_key(path@)
                    && it@ == repo_item_model_of(self.spec_root(), self.newest_map()[path@]),
                Ok(None) => spec_is_absolute(path@) && !self.newest_map().contains_key(path@),
                Err(e) => e == BakareError::RepositoryPathNotAbsolute && !spec_is_absolute(path@),
            },
    {
        match self.index.newest_item_by_source_path(path) {
            Ok(Some(it)) => Ok(Some(self.repository_item(&it))),
            Ok(None) => Ok(None),
            Err(e) => Err(e),
        }
    }

    /// The restorable revision that introduced the given fingerprint.
    pub fn item_by_id(&self, id: &ItemId) -> (r: Result<Option<RepositoryItem>, BakareError>)
        requires
            self.wf(),
        ensures
            match r {
                Ok(Some(it)) => self.id_map().contains_key(id@) && it@ == repo_item_model_of(
                    self.spec_root(),
                    self.id_map()[id@],
                ),
                Ok(None) => !self.id_map().contains_key(id@),
                Err(_) => false,
            },
    {
        match self.index.item_by_id(id) {
            Ok(Some(it)) => Ok(Some(self.repository_item(&it))),
            Ok(None) => Ok(None),
            Err(e) => Err(e),
        }
    }

    /// The newest restorable revisions of all source paths.
    pub fn newest_items(&self) -> (r: RepositoryItemIterator)
        requires
            self.wf(),
        ensures
            r.remaining() == self.index_view().newest.map_values(
                |m: ItemModel| repo_item_model_of(self.spec_root(), m),
            ),
    {
        let mut it = self.index.newest_items();
        let mut items: Vec<RepositoryItem> = Vec::new();
        let ghost total = self.index_view().newest;
        loop
            invariant
                self.wf(),
                it.remaining() == total.skip(items@.len() as int),
                items@.len() <= total.len(),
                forall|j: int|
                    0 <= j < items@.len() ==> items@[j]@ == repo_item_model_of(
                        self.spec_root(),
                        total[j],
                    ),
            ensures
                items@.len() == total.len(),
                forall|j: int|
                    0 <= j < items@.len() ==> items@[j]@ == repo_item_model_of(
                        self.spec_root(),
                        total[j],
                    ),
            decreases it.remaining().len(),
        {
            match it.next() {
                Some(x) => {
                    proof {
                        assert(total.skip(items@.len() as int)[0] == total[items@.len() as int]);
                        assert(total.skip(items@.len() as int).skip(1) =~= total.skip(
                            items@.len() + 1 as int,
                        ));
                    }
                    let ri = self.repository_item(&x);
                    items.push(ri);
                },
                None => {
                    break;
                },
            }
        }
        proof {
            assert(items@.len() == total.len());
        }
        let r = RepositoryItemIterator { items, pos: 0 };
        proof {
            assert(r.remaining() =~= total.map_values(
                |m: ItemModel| repo_item_model_of(self.spec_root(), m),
            ));
        }
        r
    }

    /// The restorable form of an index item under this repository's root.
    pub fn repository_item(&self, i: &IndexItem) -> (r: RepositoryItem)
        ensures
            r@ == repo_item_model_of(self.spec_root(), i@),
    {
        let absolute_path = join(&self.path, i.relative_path());
        RepositoryItem::from(
            i.original_source_path(),
            &absolute_path,
            i.relative_path(),
            i.id(),
            i.version(),
        )
    }

    /// The total size of the objects stored under this repository's `data`
    /// directory.
    pub fn data_weight(&self, fs: &Fs) -> (r: Result<u64, BakareError>)
        ensures
            match r {
                Ok(w) => w as int == if fs.spec_weight(spec_data_prefix(self.spec_root()))
                    <= u64::MAX {
                    fs.spec_weight(spec_data_prefix(self.spec_root())) as int
                } else {
                    u64::MAX as int
                },
                Err(_) => false,
            },
    {
        let name: Vec<u8> = vec![100u8, 97u8, 116u8, 97u8];
        proof {
            assert(name@ =~= data_name());
        }
        let mut prefix = join(&self.path, &name);
        prefix.push(47u8);
        proof {
            assert(prefix@ =~= spec_data_prefix(self.spec_root()));
        }
        Ok(fs.weight_under(&prefix))
    }
}


/// A stored object's path never collides with the index document's.
pub proof fn lemma_object_not_index(root: Seq<u8>, id: Seq<u8>)
    ensures
        spec_object_path(root, id) != spec_index_path(root),
{
    let o = spec_object_path(root, id);
    let ip = spec_index_path(root);
    assert(o[root.len() as int + 1] == 100u8) by {
        assert(o == root.push(sep()) + spec_rel_of(id));
        assert(spec_rel_of(id)[0] == 100u8);
    }
    assert(ip[root.len() as int + 1] == 105u8) by {
        assert(ip == root.push(sep()) + crate::index::index_name());
        assert(crate::index::index_name()[0] == 105u8);
    }
}

/// A stored object's path never names a lockfile, under any directory.
pub proof fn lemma_object_not_lockname(root: Seq<u8>, id: Seq<u8>)
    requires
        id.len() > 0,
    ensures
        forall|d: Seq<u8>| !spec_is_lock_path(#[trigger] spec_object_path(root, id), d),
{
    let o = spec_object_path(root, id);
    lemma_hex_of_len(id);
    let h = hex_of(id);
    assert(h.len() == 2 * id.len());
    assert(h.last() == hex_digit(id.last() % 16)) by {
        assert(h == hex_of(id.drop_last()).push(hex_digit(id.last() / 16)).push(
            hex_digit(id.last() % 16),
        ));
    }
    assert(o.last() == h.last()) by {
        assert(o == root.push(sep()) + (data_rel_prefix() + h));
    }
    assert(o.last() != 107u8);
    assert forall|d: Seq<u8>| !spec_is_lock_path(#[trigger] spec_object_path(root, id), d) by {
        if spec_is_lock_path(o, d) {
            assert(o.subrange(o.len() - 5, o.len() as int) == lock_suffix());
            assert(o.subrange(o.len() - 5, o.len() as int)[4] == lock_suffix()[4]);
            assert(o.last() == 107u8);
        }
    }
}

/// Distinct fingerprints are stored at distinct object paths.
pub proof fn lemma_object_path_injective(root: Seq<u8>, id1: Seq<u8>, id2: Seq<u8>)
    requires
        spec_object_path(root, id1) == spec_object_path(root, id2),
    ensures
        id1 == id2,
{
    let o1 = spec_object_path(root, id1);
    let o2 = spec_object_path(root, id2);
    lemma_hex_of_len(id1);
    lemma_hex_of_len(id2);
    let base = root.len() + 6;
    assert(o1.len() == base + 2 * id1.len());
    assert(o2.len() == base + 2 * id2.len());
    assert(hex_of(id1) =~= hex_of(id2)) by {
        assert forall|j: int| 0 <= j < 2 * id1.len() implies hex_of(id1)[j] == hex_of(id2)[j] by {
            assert(o1[base + j] == hex_of(id1)[j]) by {
                assert(o1 == root.push(sep()) + (data_rel_prefix() + hex_of(id1)));
            }
            assert(o2[base + j] == hex_of(id2)[j]) by {
                assert(o2 == root.push(sep()) + (data_rel_prefix() + hex_of(id2)));
            }
        }
    }
    lemma_hex_of_injective(id1, id2);
}

/// A stored object's path lies in the repository's object region, and the
/// index document's does not.
pub proof fn lemma_object_region(root: Seq<u8>, id: Seq<u8>)
    ensures
        spec_starts_with(spec_object_path(root, id), spec_data_prefix(root)),
        spec_is_within(spec_object_path(root, id), root),
        !spec_starts_with(spec_index_path(root), spec_data_prefix(root)),
        spec_is_within(spec_index_path(root), root),
{
    let o = spec_object_path(root, id);
    let dp = spec_data_prefix(root);
    assert(dp.len() == root.len() + 6);
    assert(o.len() >= root.len() + 6) by {
        assert(o == root.push(sep()) + (data_rel_prefix() + hex_of(id)));
    }
    assert(o.subrange(0, dp.len() as int) =~= dp) by {
        assert(o == root.push(sep()) + (data_rel_prefix() + hex_of(id)));
        assert(dp == (root.push(sep()) + data_name()).push(sep()));
    }
    assert(o.subrange(0, root.len() as int + 1) =~= root.push(sep())) by {
        assert(o == root.push(sep()) + (data_rel_prefix() + hex_of(id)));
    }
    let ip = spec_index_path(root);
    assert(ip == root.push(sep()) + crate::index::index_name());
    assert(ip.len() == root.len() + 6);
    assert(ip[root.len() as int + 1] == 105u8);
    assert(dp[root.len() as int + 1] == 100u8) by {
        assert(dp == (root.push(sep()) + data_name()).push(sep()));
    }
    if spec_starts_with(ip, dp) {
        assert(ip.subrange(0, dp.len() as int)[root.len() as int + 1] == dp[root.len() as int
            + 1]);
    }
    assert(ip.subrange(0, root.len() as int + 1) =~= root.push(sep()));
}


/// The repository's maps are its index's maps, and a well-formed
/// repository holds a well-formed index over an absolute root.
pub proof fn lemma_repo_index_maps(repo: Repository)
    ensures
        repo.newest_map() == repo.spec_index().newest_map(),
        repo.id_map() == repo.spec_index().id_map(),
        repo.index_view() == repo.spec_index()@,
        repo.wf() <==> (repo.spec_index().wf() && spec_is_absolute(repo.spec_root())),
{
}

} // verus!
