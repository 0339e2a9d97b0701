//! The in-memory index: which revision of which source path lives where.
//!
//! The index is two keyed collections of [`IndexItem`] — the newest revision
//! of every source path, and the revision that introduced every content
//! fingerprint — together with the document's own version.  Saving merges
//! the on-disk document into the in-memory one, so concurrent writers
//! converge; the merge functions here carry the exact merge semantics.

use vstd::prelude::*;
use crate::index_item::{IndexItem, ItemModel};
use crate::item_id::ItemId;
use crate::paths::{bytes_equal, spec_is_absolute, is_absolute};
use crate::version::Version;
use crate::error::BakareError;
use crate::fs::Fs;
use crate::lock::{Lock, spec_any_lock, spec_is_lock_path, lock_suffix};
use crate::paths::{spec_join, join, spec_starts_with};
use crate::codec::{
    le_bytes, le_read, read_bytes, spec_encode_item, spec_encode_items, spec_encode_index,
    spec_parse_item, spec_parse_items, spec_parse_index, item_fits, items_fit, view_fits,
    lemma_encode_items_snoc, lemma_pow256_values, le_bytes_of, lemma_le_val_bound,
};

verus! {

/// The key a collection of items is organised by.
pub open spec fn key_of_path() -> spec_fn(ItemModel) -> Seq<u8> {
    |it: ItemModel| it.original_source_path
}

/// The key of the fingerprint-keyed collection.
pub open spec fn key_of_id() -> spec_fn(ItemModel) -> Seq<u8> {
    |it: ItemModel| it.id
}

/// The finite map that a keyed sequence of items denotes; a later item with
/// the same key wins.
pub open spec fn item_map_of(s: Seq<ItemModel>, keyf: spec_fn(ItemModel) -> Seq<u8>) -> Map<
    Seq<u8>,
    ItemModel,
>
    decreases s.len(),
{
    if s.len() == 0 {
        Map::empty()
    } else {
        item_map_of(s.drop_last(), keyf).insert(keyf(s.last()), s.last())
    }
}

/// No two items carry the same key.
pub open spec fn item_keys_distinct(s: Seq<ItemModel>, keyf: spec_fn(ItemModel) -> Seq<u8>) -> bool {
    forall|i: int, j: int| 0 <= i < j < s.len() ==> keyf(s[i]) != keyf(s[j])
}

/// A key is in the map exactly when some item carries it, and the map sends
/// every key to an item carrying it.
pub proof fn lemma_item_map_membership(s: Seq<ItemModel>, keyf: spec_fn(ItemModel) -> Seq<u8>)
    ensures
        forall|k: Seq<u8>|
            item_map_of(s, keyf).contains_key(k) <==> (exists|i: int|
                0 <= i < s.len() && keyf(s[i]) == k),
        forall|k: Seq<u8>|
            #[trigger] item_map_of(s, keyf).contains_key(k) ==> keyf(item_map_of(s, keyf)[k]) == k,
    decreases s.len(),
{
    if s.len() > 0 {
        let dl = s.drop_last();
        lemma_item_map_membership(dl, keyf);
        assert forall|k: Seq<u8>|
            item_map_of(s, keyf).contains_key(k) <==> (exists|i: int|
                0 <= i < s.len() && keyf(s[i]) == k) by {
            if item_map_of(s, keyf).contains_key(k) {
                if k == keyf(s.last()) {
                    assert(keyf(s[s.len() - 1]) == k);
                } else {
                    assert(item_map_of(dl, keyf).contains_key(k));
                    let i = choose|i: int| 0 <= i < dl.len() && keyf(dl[i]) == k;
                    assert(dl[i] == s[i]);
                    assert(keyf(s[i]) == k);
                }
            }
            if exists|i: int| 0 <= i < s.len() && keyf(s[i]) == k {
                let i = choose|i: int| 0 <= i < s.len() && keyf(s[i]) == k;
                if i < s.len() - 1 {
                    assert(dl[i] == s[i]);
                    assert(keyf(dl[i]) == k);
                    assert(item_map_of(dl, keyf).contains_key(k));
                } else {
                    assert(k == keyf(s.last()));
                }
                assert(item_map_of(s, keyf).contains_key(k));
            }
        }
        assert forall|k: Seq<u8>| #[trigger]
            item_map_of(s, keyf).contains_key(k) implies keyf(item_map_of(s, keyf)[k]) == k by {
            if k == keyf(s.last()) {
                assert(item_map_of(s, keyf)[k] == s.last());
            } else {
                assert(item_map_of(s, keyf)[k] == item_map_of(dl, keyf)[k]);
            }
        }
    }
}

/// With distinct keys, the map sends each item's key to that item.
pub proof fn lemma_item_map_value(s: Seq<ItemModel>, keyf: spec_fn(ItemModel) -> Seq<u8>, i: int)
    requires
        item_keys_distinct(s, keyf),
        0 <= i < s.len(),
    ensures
        item_map_of(s, keyf).contains_key(keyf(s[i])),
        item_map_of(s, keyf)[keyf(s[i])] == s[i],
    decreases s.len(),
{
    if i == s.len() - 1 {
    } else {
        let dl = s.drop_last();
        assert(item_keys_distinct(dl, keyf));
        assert(dl[i] == s[i]);
        lemma_item_map_value(dl, keyf, i);
        assert(keyf(s[i]) != keyf(s.last()));
    }
}

/// Removing the item at `i` removes exactly its key from the map.
pub proof fn lemma_item_map_remove(s: Seq<ItemModel>, keyf: spec_fn(ItemModel) -> Seq<u8>, i: int)
    requires
        item_keys_distinct(s, keyf),
        0 <= i < s.len(),
    ensures
        item_map_of(s.remove(i), keyf) =~= item_map_of(s, keyf).remove(keyf(s[i])),
        item_keys_distinct(s.remove(i), keyf),
    decreases s.len(),
{
    assert(item_keys_distinct(s.remove(i), keyf));
    if i == s.len() - 1 {
        assert(s.remove(i) =~= s.drop_last());
        lemma_item_map_membership(s.drop_last(), keyf);
        assert(!item_map_of(s.drop_last(), keyf).contains_key(keyf(s[i])));
        assert(item_map_of(s.drop_last(), keyf) =~= item_map_of(s.drop_last(), keyf).insert(
            keyf(s.last()),
            s.last(),
        ).remove(keyf(s.last())));
    } else {
        assert(s.remove(i).drop_last() =~= s.drop_last().remove(i));
        assert(item_keys_distinct(s.drop_last(), keyf));
        lemma_item_map_remove(s.drop_last(), keyf, i);
        assert(s.remove(i).last() == s.last());
        assert(keyf(s[i]) != keyf(s.last()));
        assert(item_map_of(s.remove(i), keyf) =~= item_map_of(
            s.drop_last().remove(i),
            keyf,
        ).insert(keyf(s.last()), s.last()));
    }
}

/// Appending an item extends the map at its key.
pub proof fn lemma_item_map_push(s: Seq<ItemModel>, keyf: spec_fn(ItemModel) -> Seq<u8>, e: ItemModel)
    ensures
        item_map_of(s.push(e), keyf) =~= item_map_of(s, keyf).insert(keyf(e), e),
{
    assert(s.push(e).drop_last() =~= s);
    assert(s.push(e).last() == e);
}

/// The version a fresh revision of `osp` receives: one above the previous
/// revision, or the initial version for a first backup.
pub open spec fn vnext(v: int) -> int {
    if v < u128::MAX {
        v + 1
    } else {
        v
    }
}

/// The version that `remember` assigns for source path `osp`.
pub open spec fn remembered_version(newest: Map<Seq<u8>, ItemModel>, osp: Seq<u8>) -> int {
    if newest.contains_key(osp) {
        vnext(newest[osp].version)
    } else {
        1
    }
}

/// The item that `remember` records for source path `osp`.
pub open spec fn remembered_model(
    newest: Map<Seq<u8>, ItemModel>,
    osp: Seq<u8>,
    rel: Seq<u8>,
    id: Seq<u8>,
) -> ItemModel {
    ItemModel {
        relative_path: rel,
        original_source_path: osp,
        id: id,
        version: remembered_version(newest, osp),
    }
}

/// The merge of two path-keyed maps: union of the paths, and for a path
/// both sides know, the side with the strictly greater version wins (the
/// left side on a tie).
pub open spec fn merge_newest_maps(
    a: Map<Seq<u8>, ItemModel>,
    b: Map<Seq<u8>, ItemModel>,
) -> Map<Seq<u8>, ItemModel> {
    Map::new(
        |k: Seq<u8>| a.contains_key(k) || b.contains_key(k),
        |k: Seq<u8>|
            if a.contains_key(k) && b.contains_key(k) {
                if b[k].version > a[k].version {
                    b[k]
                } else {
                    a[k]
                }
            } else if a.contains_key(k) {
                a[k]
            } else {
                b[k]
            },
    )
}

/// The merge of two fingerprint-keyed maps: union of the keys, the left
/// side winning on keys both know — safe because a fingerprint determines
/// the stored content.
pub open spec fn merge_id_maps(a: Map<Seq<u8>, ItemModel>, b: Map<Seq<u8>, ItemModel>) -> Map<
    Seq<u8>,
    ItemModel,
> {
    Map::new(
        |k: Seq<u8>| a.contains_key(k) || b.contains_key(k),
        |k: Seq<u8>|
            if a.contains_key(k) {
                a[k]
            } else {
                b[k]
            },
    )
}

/// The mathematical content of an [`Index`].
pub ghost struct IndexView {
    /// The newest revision of every source path, in storage order.
    pub newest: Seq<ItemModel>,
    /// The revision that introduced every fingerprint, in storage order.
    pub by_id: Seq<ItemModel>,
    /// The index document's own version.
    pub version: int,
}

/// Every path-keyed entry points at a fingerprint the index knows.
pub open spec fn index_linked(newest: Map<Seq<u8>, ItemModel>, ids: Map<Seq<u8>, ItemModel>) -> bool {
    forall|k: Seq<u8>| #[trigger]
        newest.contains_key(k) ==> ids.contains_key(newest[k].id)
}

/// What a stored index document must satisfy to be loadable: one entry per
/// key in either collection, and every newest entry pointing at a
/// fingerprint the document knows.
pub open spec fn view_wf(v: IndexView) -> bool {
    &&& item_keys_distinct(v.newest, key_of_path())
    &&& item_keys_distinct(v.by_id, key_of_id())
    &&& index_linked(
        item_map_of(v.newest, key_of_path()),
        item_map_of(v.by_id, key_of_id()),
    )
}

/// The in-memory index document.
#[derive(Debug, PartialEq, Eq)]
pub struct Index {
    newest_items_by_source_path: Vec<IndexItem>,
    items_by_file_id: Vec<IndexItem>,
    version: Version,
}

impl View for Index {
    type V = IndexView;

    closed spec fn view(&self) -> IndexView {
        IndexView {
            newest: self.newest_items_by_source_path@.map_values(|it: IndexItem| it@),
            by_id: self.items_by_file_id@.map_values(|it: IndexItem| it@),
            version: self.version.spec_value(),
        }
    }
}

/// The position of the first item whose source path is `path`.
fn find_by_path(items: &Vec<IndexItem>, path: &Vec<u8>) -> (r: Option<usize>)
    ensures
        match r {
            Some(i) => i < items@.len() && items@[i as int]@.original_source_path == path@,
            None => forall|i: int|
                0 <= i < items@.len() ==> items@[i]@.original_source_path != path@,
        },
{
    let mut i: usize = 0;
    while i < items.len()
        invariant
            i <= items@.len(),
            forall|j: int| 0 <= j < i ==> items@[j]@.original_source_path != path@,
        decreases items@.len() - i,
    {
        if bytes_equal(items[i].original_source_path(), path) {
            return Some(i);
        }
        i += 1;
    }
    None
}

/// The position of the first item whose fingerprint is `id`.
fn find_by_id(items: &Vec<IndexItem>, id: &Vec<u8>) -> (r: Option<usize>)
    ensures
        match r {
            Some(i) => i < items@.len() && items@[i as int]@.id == id@,
            None => forall|i: int| 0 <= i < items@.len() ==> items@[i]@.id != id@,
        },
{
    let mut i: usize = 0;
    while i < items.len()
        invariant
            i <= items@.len(),
            forall|j: int| 0 <= j < i ==> items@[j]@.id != id@,
        decreases items@.len() - i,
    {
        let id_i = items[i].id();
        if bytes_equal(id_i.as_bytes(), id) {
            return Some(i);
        }
        i += 1;
    }
    None
}

impl Index {
    /// The newest revision of every source path, as a map keyed by path.
    pub open spec fn newest_map(self) -> Map<Seq<u8>, ItemModel> {
        item_map_of(self@.newest, key_of_path())
    }

    /// The introducing revision of every fingerprint, as a map keyed by it.
    pub open spec fn id_map(self) -> Map<Seq<u8>, ItemModel> {
        item_map_of(self@.by_id, key_of_id())
    }

    /// Both collections carry one entry per key, and every newest entry
    /// points at a fingerprint the index knows.
    pub open spec fn wf(self) -> bool {
        view_wf(self@)
    }

    /// An empty index at the initial document version.
    pub fn new() -> (r: Index)
        ensures
            r.wf(),
            r@.newest.len() == 0,
            r@.by_id.len() == 0,
            r@.version == 1,
    {
        let r = Index {
            newest_items_by_source_path: Vec::new(),
            items_by_file_id: Vec::new(),
            version: Version::default(),
        };
        proof {
            assert(r@.newest =~= Seq::<ItemModel>::empty());
            assert(r@.by_id =~= Seq::<ItemModel>::empty());
        }
        r
    }

    /// The index document's own version.
    pub fn version(&self) -> (r: Version)
        ensures
            r.spec_value() == self@.version,
    {
        self.version
    }

    /// Records a fresh backup of `original_source_path` whose bytes have
    /// fingerprint `id` and now live at `relative_path` under the
    /// repository root.  A path already known gets the next version; a new
    /// path starts at the initial version.  Both collections are upserted;
    /// the document version is untouched.
    pub fn remember(&mut self, original_source_path: &Vec<u8>, relative_path: &Vec<u8>, id: ItemId)
        requires
            old(self).wf(),
        ensures
            final(self).wf(),
            final(self).newest_map() =~= old(self).newest_map().insert(
                original_source_path@,
                remembered_model(old(self).newest_map(), original_source_path@, relative_path@, id@),
            ),
            final(self).id_map() =~= old(self).id_map().insert(
                id@,
                remembered_model(old(self).newest_map(), original_source_path@, relative_path@, id@),
            ),
            final(self)@.version == old(self)@.version,
    {
        let ghost n0 = self@.newest;
        let ghost b0 = self@.by_id;
        let item: IndexItem = match find_by_path(&self.newest_items_by_source_path, original_source_path) {
            Some(i) => {
                proof {
                    lemma_item_map_value(n0, key_of_path(), i as int);
                }
                self.newest_items_by_source_path[i].next_version(id.duplicate(), relative_path.clone())
            },
            None => {
                proof {
                    lemma_item_map_membership(n0, key_of_path());
                }
                IndexItem::from(
                    original_source_path.clone(),
                    relative_path.clone(),
                    id.duplicate(),
                    Version::default(),
                )
            },
        };
        proof {
            assert(item@ == remembered_model(
                old(self).newest_map(),
                original_source_path@,
                relative_path@,
                id@,
            ));
        }
        // Upsert the path-keyed collection.
        match find_by_path(&self.newest_items_by_source_path, original_source_path) {
            Some(i) => {
                proof {
                    lemma_item_map_value(n0, key_of_path(), i as int);
                    lemma_item_map_remove(n0, key_of_path(), i as int);
                }
                self.newest_items_by_source_path.remove(i);
                let ghost n1 = self@.newest;
                proof {
                    assert(n1 =~= n0.remove(i as int));
                }
                self.newest_items_by_source_path.push(item.duplicate());
                proof {
                    assert(self@.newest =~= n1.push(item@));
                    lemma_item_map_push(n1, key_of_path(), item@);
                    lemma_item_map_membership(n1, key_of_path());
                    assert(item_keys_distinct(self@.newest, key_of_path()));
                }
            },
            None => {
                proof {
                    lemma_item_map_membership(n0, key_of_path());
                }
                self.newest_items_by_source_path.push(item.duplicate());
                proof {
                    assert(self@.newest =~= n0.push(item@));
                    lemma_item_map_push(n0, key_of_path(), item@);
                    assert(item_keys_distinct(self@.newest, key_of_path()));
                }
            },
        }
        // Upsert the fingerprint-keyed collection.
        let id_bytes = id.as_bytes().clone();
        match find_by_id(&self.items_by_file_id, &id_bytes) {
            Some(j) => {
                proof {
                    lemma_item_map_value(b0, key_of_id(), j as int);
                    lemma_item_map_remove(b0, key_of_id(), j as int);
                }
                self.items_by_file_id.remove(j);
                let ghost b1 = self@.by_id;
                proof {
                    assert(b1 =~= b0.remove(j as int));
                }
                self.items_by_file_id.push(item);
                proof {
                    assert(self@.by_id =~= b1.push(item@));
                    lemma_item_map_push(b1, key_of_id(), item@);
                    lemma_item_map_membership(b1, key_of_id());
                    assert(item_keys_distinct(self@.by_id, key_of_id()));
                }
            },
            None => {
                proof {
                    lemma_item_map_membership(b0, key_of_id());
                }
                self.items_by_file_id.push(item);
                proof {
                    assert(self@.by_id =~= b0.push(item@));
                    lemma_item_map_push(b0, key_of_id(), item@);
                    assert(item_keys_distinct(self@.by_id, key_of_id()));
                }
            },
        }
    }

    /// The newest revision of the given absolute source path, if any.
    pub fn newest_item_by_source_path(&self, path: &Vec<u8>) -> (r: Result<
        Option<IndexItem>,
        BakareError,
    >)
        requires
            self.wf(),
        ensures
            match r {
                Ok(Some(it)) => spec_is_absolute(path@) && self.newest_map().contains_key(path@)
                    && it@ == self.newest_map()[path@],
                Ok(None) => spec_is_absolute(path@) && !self.newest_map().contains_key(path@),
                Err(e) => e == BakareError::RepositoryPathNotAbsolute && !spec_is_absolute(path@),
            },
    {
        if !is_absolute(path) {
            return Err(BakareError::RepositoryPathNotAbsolute);
        }
        proof {
            lemma_item_map_membership(self@.newest, key_of_path());
        }
        match find_by_path(&self.newest_items_by_source_path, path) {
            Some(i) => {
                proof {
                    lemma_item_map_value(self@.newest, key_of_path(), i as int);
                }
                Ok(Some(self.newest_items_by_source_path[i].duplicate()))
            },
            None => Ok(None),
        }
    }

    /// The revision that introduced the given fingerprint, if any.
    pub fn item_by_id(&self, id: &ItemId) -> (r: Result<Option<IndexItem>, BakareError>)
        requires
            self.wf(),
        ensures
            match r {
                Ok(Some(it)) => self.id_map().contains_key(id@) && it@ == self.id_map()[id@],
                Ok(None) => !self.id_map().contains_key(id@),
                Err(_) => false,
            },
    {
        proof {
            lemma_item_map_membership(self@.by_id, key_of_id());
        }
        let id_bytes = id.as_bytes().clone();
        match find_by_id(&self.items_by_file_id, &id_bytes) {
            Some(i) => {
                proof {
                    lemma_item_map_value(self@.by_id, key_of_id(), i as int);
                }
                Ok(Some(self.items_by_file_id[i].duplicate()))
            },
            None => Ok(None),
        }
    }

    /// The newest revisions of all source paths, in storage order.
    pub fn newest_items(&self) -> (r: IndexItemIterator)
        ensures
            r.remaining() == self@.newest,
    {
        let mut items: Vec<IndexItem> = Vec::new();
        let mut i: usize = 0;
        while i < self.newest_items_by_source_path.len()
            invariant
                i <= self.newest_items_by_source_path@.len(),
                items@.len() == i,
                forall|j: int| 0 <= j < i ==> items@[j]@ == self@.newest[j],
            decreases self.newest_items_by_source_path@.len() - i,
        {
            items.push(self.newest_items_by_source_path[i].duplicate());
            i += 1;
        }
        let r = IndexItemIterator { items, pos: 0 };
        proof {
            assert(r.remaining() =~= self@.newest);
        }
        r
    }

    /// Folds the fingerprint-keyed collection of `other` into this one;
    /// fingerprints this index already knows keep their entry.
    pub fn merge_items_by_file_id(&mut self, other: &Index)
        requires
            old(self).wf(),
            other.wf(),
        ensures
            final(self).wf(),
            final(self).id_map() =~= merge_id_maps(old(self).id_map(), other.id_map()),
            final(self)@.newest == old(self)@.newest,
            final(self)@.version == old(self)@.version,
    {
        let ghost a0 = old(self).id_map();
        let mut i: usize = 0;
        proof {
            assert(other@.by_id.subrange(0, 0) =~= Seq::<ItemModel>::empty());
            assert(self.id_map() =~= merge_id_maps(
                a0,
                item_map_of(other@.by_id.subrange(0, 0), key_of_id()),
            ));
        }
        while i < other.items_by_file_id.len()
            invariant
                i <= other@.by_id.len(),
                other.wf(),
                old(self).wf(),
                self.wf(),
                other@.by_id.len() == other.items_by_file_id@.len(),
                forall|j: int|
                    0 <= j < other@.by_id.len() ==> other.items_by_file_id@[j]@ == other@.by_id[j],
                self.id_map() =~= merge_id_maps(
                    a0,
                    item_map_of(other@.by_id.subrange(0, i as int), key_of_id()),
                ),
                self@.newest == old(self)@.newest,
                self@.version == old(self)@.version,
            decreases other.items_by_file_id@.len() - i,
        {
            let ghost pre = other@.by_id.subrange(0, i as int);
            let ghost post = other@.by_id.subrange(0, i + 1 as int);
            let ghost k = other@.by_id[i as int].id;
            proof {
                assert(post.drop_last() =~= pre);
                assert(post.last() == other@.by_id[i as int]);
                lemma_item_map_push(pre, key_of_id(), other@.by_id[i as int]);
                assert(post =~= pre.push(other@.by_id[i as int]));
                lemma_item_map_membership(pre, key_of_id());
                assert forall|j: int| 0 <= j < pre.len() implies key_of_id()(pre[j]) != k by {
                    assert(pre[j] == other@.by_id[j]);
                    assert(key_of_id()(other@.by_id[j]) != key_of_id()(other@.by_id[i as int]));
                }
                assert(!item_map_of(pre, key_of_id()).contains_key(k));
            }
            let it = &other.items_by_file_id[i];
            let ghost b0 = self@.by_id;
            let id_bytes = it.id();
            match find_by_id(&self.items_by_file_id, id_bytes.as_bytes()) {
                Some(j) => {
                    proof {
                        assert(b0[j as int].id == k);
                        lemma_item_map_membership(b0, key_of_id());
                        assert(self.id_map().contains_key(k));
                        assert(a0.contains_key(k));
                        assert(self.id_map() =~= merge_id_maps(
                            a0,
                            item_map_of(post, key_of_id()),
                        ));
                    }
                },
                None => {
                    proof {
                        lemma_item_map_membership(b0, key_of_id());
                        assert(!self.id_map().contains_key(other@.by_id[i as int].id));
                    }
                    let dup = it.duplicate();
                    self.items_by_file_id.push(dup);
                    proof {
                        assert(self@.by_id =~= b0.push(other@.by_id[i as int]));
                        lemma_item_map_push(b0, key_of_id(), other@.by_id[i as int]);
                        assert(item_keys_distinct(self@.by_id, key_of_id()));
                        assert(self.id_map() =~= merge_id_maps(
                            a0,
                            item_map_of(post, key_of_id()),
                        ));
                        assert(index_linked(self.newest_map(), self.id_map()));
                    }
                },
            }
            i += 1;
        }
        proof {
            assert(other@.by_id.subrange(0, other@.by_id.len() as int) =~= other@.by_id);
        }
    }

    /// Folds the path-keyed collection of `other` into this one: paths only
    /// `other` knows are adopted, and where both know a path the strictly
    /// greater version wins.
    pub fn merge_newest_items(&mut self, other: &Index)
        requires
            old(self).wf(),
            other.wf(),
            index_linked(other.newest_map(), old(self).id_map()),
        ensures
            final(self).wf(),
            final(self).newest_map() =~= merge_newest_maps(old(self).newest_map(), other.newest_map()),
            final(self).id_map() == old(self).id_map(),
            final(self)@.by_id == old(self)@.by_id,
            final(self)@.version == old(self)@.version,
    {
        let ghost a0 = old(self).newest_map();
        let mut i: usize = 0;
        proof {
            assert(other@.newest.subrange(0, 0) =~= Seq::<ItemModel>::empty());
            assert(self.newest_map() =~= merge_newest_maps(
                a0,
                item_map_of(other@.newest.subrange(0, 0), key_of_path()),
            ));
        }
        while i < other.newest_items_by_source_path.len()
            invariant
                i <= other@.newest.len(),
                other.wf(),
                self.wf(),
                other@.newest.len() == other.newest_items_by_source_path@.len(),
                forall|j: int|
                    0 <= j < other@.newest.len() ==> other.newest_items_by_source_path@[j]@
                        == other@.newest[j],
                self.newest_map() =~= merge_newest_maps(
                    a0,
                    item_map_of(other@.newest.subrange(0, i as int), key_of_path()),
                ),
                self@.by_id == old(self)@.by_id,
                self@.version == old(self)@.version,
                self.id_map() == old(self).id_map(),
                index_linked(other.newest_map(), old(self).id_map()),
            decreases other.newest_items_by_source_path@.len() - i,
        {
            let ghost pre = other@.newest.subrange(0, i as int);
            let ghost post = other@.newest.subrange(0, i + 1 as int);
            let ghost k = other@.newest[i as int].original_source_path;
            proof {
                assert(post.drop_last() =~= pre);
                assert(post.last() == other@.newest[i as int]);
                lemma_item_map_push(pre, key_of_path(), other@.newest[i as int]);
                assert(post =~= pre.push(other@.newest[i as int]));
                lemma_item_map_membership(pre, key_of_path());
                assert forall|j: int| 0 <= j < pre.len() implies key_of_path()(pre[j]) != k by {
                    assert(pre[j] == other@.newest[j]);
                    assert(key_of_path()(other@.newest[j]) != key_of_path()(
                        other@.newest[i as int],
                    ));
                }
                assert(!item_map_of(pre, key_of_path()).contains_key(k));
                lemma_item_map_value(other@.newest, key_of_path(), i as int);
                assert(key_of_path()(other@.newest[i as int]) == k);
                assert(other.newest_map().contains_key(k));
                assert(other.newest_map()[k] == other@.newest[i as int]);
                assert(old(self).id_map().contains_key(other.newest_map()[k].id));
                assert(old(self).id_map().contains_key(other@.newest[i as int].id));
            }
            let it = &other.newest_items_by_source_path[i];
            let ghost n0 = self@.newest;
            let ghost cur = self.newest_map();
            match find_by_path(&self.newest_items_by_source_path, it.original_source_path()) {
                Some(j) => {
                    proof {
                        lemma_item_map_value(n0, key_of_path(), j as int);
                    }
                    let mine_version = self.newest_items_by_source_path[j].version();
                    let theirs_version = it.version();
                    if theirs_version.is_greater_than(&mine_version) {
                        proof {
                            lemma_item_map_remove(n0, key_of_path(), j as int);
                        }
                        self.newest_items_by_source_path.remove(j);
                        let ghost n1 = self@.newest;
                        proof {
                            assert(n1 =~= n0.remove(j as int));
                        }
                        self.newest_items_by_source_path.push(it.duplicate());
                        proof {
                            assert(self@.newest =~= n1.push(other@.newest[i as int]));
                            lemma_item_map_push(n1, key_of_path(), other@.newest[i as int]);
                            lemma_item_map_membership(n1, key_of_path());
                            assert(item_keys_distinct(self@.newest, key_of_path()));
                            assert(self.newest_map() =~= merge_newest_maps(
                                a0,
                                item_map_of(post, key_of_path()),
                            ));
                            assert forall|x: Seq<u8>| #[trigger]
                                self.newest_map().contains_key(x) implies self.id_map().contains_key(
                                self.newest_map()[x].id,
                            ) by {
                                if x != k {
                                    assert(cur.contains_key(x));
                                    assert(self.newest_map()[x] == cur[x]);
                                }
                            }
                        }
                    } else {
                        proof {
                            assert(self.newest_map() =~= merge_newest_maps(
                                a0,
                                item_map_of(post, key_of_path()),
                            ));
                        }
                    }
                },
                None => {
                    proof {
                        lemma_item_map_membership(n0, key_of_path());
                        assert(!cur.contains_key(other@.newest[i as int].original_source_path));
                    }
                    self.newest_items_by_source_path.push(it.duplicate());
                    proof {
                        assert(self@.newest =~= n0.push(other@.newest[i as int]));
                        lemma_item_map_push(n0, key_of_path(), other@.newest[i as int]);
                        assert(item_keys_distinct(self@.newest, key_of_path()));
                        assert(self.newest_map() =~= merge_newest_maps(
                            a0,
                            item_map_of(post, key_of_path()),
                        ));
                        assert forall|x: Seq<u8>| #[trigger]
                            self.newest_map().contains_key(x) implies self.id_map().contains_key(
                            self.newest_map()[x].id,
                        ) by {
                            if x != k {
                                assert(cur.contains_key(x));
                                assert(self.newest_map()[x] == cur[x]);
                            }
                        }
                    }
                },
            }
            i += 1;
        }
        proof {
            assert(other@.newest.subrange(0, other@.newest.len() as int) =~= other@.newest);
        }
    }
}

/// Walks the newest revisions of an index, in storage order.
pub struct IndexItemIterator {
    items: Vec<IndexItem>,
    pos: usize,
}

impl IndexItemIterator {
    /// The items not yet handed out.
    pub closed spec fn remaining(self) -> Seq<ItemModel> {
        if self.pos as int <= self.items@.len() {
            self.items@.map_values(|it: IndexItem| it@).skip(self.pos as int)
        } else {
            Seq::empty()
        }
    }

    /// The next item, or nothing once all have been handed out.
    pub fn next(&mut self) -> (r: Option<IndexItem>)
        ensures
            match r {
                Some(it) => old(self).remaining().len() > 0 && it@ == old(self).remaining()[0]
                    && final(self).remaining() == old(self).remaining().skip(1),
                None => old(self).remaining().len() == 0 && final(self).remaining()
                    == old(self).remaining(),
            },
    {
        if self.pos < self.items.len() {
            let it = self.items[self.pos].duplicate();
            self.pos += 1;
            proof {
                assert(final(self).remaining() =~= old(self).remaining().skip(1));
            }
            Some(it)
        } else {
            proof {
                if old(self).pos as int <= old(self).items@.len() {
                    assert(old(self).remaining() =~= Seq::<ItemModel>::empty());
                }
            }
            None
        }
    }
}


/// Appends the encoded form of one item to `out`.
fn encode_item_into(out: &mut Vec<u8>, it: &IndexItem)
    ensures
        final(out)@ == old(out)@ + spec_encode_item(it@),
        item_fits(it@),
{
    proof {
        lemma_pow256_values();
    }
    let ghost start = out@;
    let osp = it.original_source_path();
    let mut f1 = le_bytes(osp.len() as u128, 8);
    out.append(&mut f1);
    let mut f2 = osp.clone();
    out.append(&mut f2);
    let rel = it.relative_path();
    let mut f3 = le_bytes(rel.len() as u128, 8);
    out.append(&mut f3);
    let mut f4 = rel.clone();
    out.append(&mut f4);
    let idv = it.id();
    let idb = idv.as_bytes();
    let mut f5 = le_bytes(idb.len() as u128, 8);
    out.append(&mut f5);
    let mut f6 = idb.clone();
    out.append(&mut f6);
    let mut f7 = le_bytes(it.version().0, 16);
    out.append(&mut f7);
    proof {
        assert(out@ =~= start + spec_encode_item(it@));
    }
}

/// Whether no two items share a source path.
fn paths_distinct_check(items: &Vec<IndexItem>) -> (r: bool)
    ensures
        r == item_keys_distinct(items@.map_values(|it: IndexItem| it@), key_of_path()),
{
    let ghost vs = items@.map_values(|it: IndexItem| it@);
    let mut i: usize = 0;
    while i < items.len()
        invariant
            i <= items@.len(),
            vs == items@.map_values(|it: IndexItem| it@),
            forall|a: int, b: int| 0 <= a < b < items@.len() && a < i ==> key_of_path()(vs[a]) != key_of_path()(vs[b]),
        decreases items@.len() - i,
    {
        let mut j: usize = i + 1;
        while j < items.len()
            invariant
                i < j <= items@.len() || (i + 1 == j && j > items@.len()),
                i < items@.len(),
                vs == items@.map_values(|it: IndexItem| it@),
                forall|b: int| i < b < j ==> key_of_path()(vs[i as int]) != key_of_path()(vs[b]),
            decreases items@.len() - j,
        {
            if bytes_equal(items[i].original_source_path(), items[j].original_source_path()) {
                proof {
                    assert(key_of_path()(vs[i as int]) == key_of_path()(vs[j as int]));
                }
                return false;
            }
            j += 1;
        }
        i += 1;
    }
    true
}

/// Whether no two items share a fingerprint.
fn ids_distinct_check(items: &Vec<IndexItem>) -> (r: bool)
    ensures
        r == item_keys_distinct(items@.map_values(|it: IndexItem| it@), key_of_id()),
{
    let ghost vs = items@.map_values(|it: IndexItem| it@);
    let mut i: usize = 0;
    while i < items.len()
        invariant
            i <= items@.len(),
            vs == items@.map_values(|it: IndexItem| it@),
            forall|a: int, b: int| 0 <= a < b < items@.len() && a < i ==> key_of_id()(vs[a]) != key_of_id()(vs[b]),
        decreases items@.len() - i,
    {
        let id_i = items[i].id();
        let mut j: usize = i + 1;
        while j < items.len()
            invariant
                i < j <= items@.len() || (i + 1 == j && j > items@.len()),
                i < items@.len(),
                vs == items@.map_values(|it: IndexItem| it@),
                id_i@ == vs[i as int].id,
                forall|b: int| i < b < j ==> key_of_id()(vs[i as int]) != key_of_id()(vs[b]),
            decreases items@.len() - j,
        {
            let id_j = items[j].id();
            if bytes_equal(id_i.as_bytes(), id_j.as_bytes()) {
                proof {
                    assert(key_of_id()(vs[i as int]) == key_of_id()(vs[j as int]));
                }
                return false;
            }
            j += 1;
        }
        i += 1;
    }
    true
}

/// Whether every newest entry points at a fingerprint among `by_id`.
fn linked_check(newest: &Vec<IndexItem>, by_id: &Vec<IndexItem>) -> (r: bool)
    requires
        item_keys_distinct(newest@.map_values(|it: IndexItem| it@), key_of_path()),
    ensures
        r == index_linked(
            item_map_of(newest@.map_values(|it: IndexItem| it@), key_of_path()),
            item_map_of(by_id@.map_values(|it: IndexItem| it@), key_of_id()),
        ),
{
    let ghost ns = newest@.map_values(|it: IndexItem| it@);
    let ghost bs = by_id@.map_values(|it: IndexItem| it@);
    let mut i: usize = 0;
    while i < newest.len()
        invariant
            i <= newest@.len(),
            ns == newest@.map_values(|it: IndexItem| it@),
            bs == by_id@.map_values(|it: IndexItem| it@),
            item_keys_distinct(ns, key_of_path()),
            forall|a: int|
                0 <= a < i ==> item_map_of(bs, key_of_id()).contains_key(#[trigger] ns[a].id),
        decreases newest@.len() - i,
    {
        let idv = newest[i].id();
        match find_by_id(by_id, idv.as_bytes()) {
            Some(j) => {
                proof {
                    lemma_item_map_membership(bs, key_of_id());
                    assert(bs[j as int].id == ns[i as int].id);
                    assert(item_map_of(bs, key_of_id()).contains_key(ns[i as int].id));
                }
            },
            None => {
                proof {
                    lemma_item_map_membership(bs, key_of_id());
                    lemma_item_map_value(ns, key_of_path(), i as int);
                    assert(item_map_of(ns, key_of_path()).contains_key(
                        ns[i as int].original_source_path,
                    ));
                    assert(!item_map_of(bs, key_of_id()).contains_key(ns[i as int].id));
                }
                return false;
            },
        }
        i += 1;
    }
    proof {
        lemma_item_map_membership(ns, key_of_path());
        assert forall|k: Seq<u8>| #[trigger]
            item_map_of(ns, key_of_path()).contains_key(k) implies item_map_of(
            bs,
            key_of_id(),
        ).contains_key(item_map_of(ns, key_of_path())[k].id) by {
            let a = choose|a: int| 0 <= a < ns.len() && key_of_path()(ns[a]) == k;
            lemma_item_map_value(ns, key_of_path(), a);
        }
    }
    true
}

/// Parses one encoded item at `pos`.
fn parse_one_item(bytes: &Vec<u8>, pos: usize) -> (r: Option<(IndexItem, usize)>)
    ensures
        match r {
            Some((it, p)) => spec_parse_item(bytes@, pos as int) == Some((it@, p as int)) && p
                <= bytes@.len(),
            None => spec_parse_item(bytes@, pos as int) is None,
        },
{
    let blen = bytes.len();
    let n1 = match le_read(bytes, pos, 8) {
        Some(v) => v,
        None => {
            return None;
        },
    };
    proof {
        lemma_le_val_bound(bytes@.subrange(pos as int, pos + 8));
        lemma_pow256_values();
    }
    if n1 + 8 > (blen - (pos + 8)) as u128 {
        return None;
    }
    let n1u = n1 as usize;
    let osp = match read_bytes(bytes, pos + 8, n1u) {
        Some(v) => v,
        None => {
            proof {
                assert(false);
            }
            return None;
        },
    };
    let p1 = pos + 8 + n1u;
    let n2 = match le_read(bytes, p1, 8) {
        Some(v) => v,
        None => {
            proof {
                assert(false);
            }
            return None;
        },
    };
    proof {
        lemma_le_val_bound(bytes@.subrange(p1 as int, p1 + 8));
        lemma_pow256_values();
    }
    if n2 + 8 > (blen - (p1 + 8)) as u128 {
        return None;
    }
    let n2u = n2 as usize;
    let rel = match read_bytes(bytes, p1 + 8, n2u) {
        Some(v) => v,
        None => {
            proof {
                assert(false);
            }
            return None;
        },
    };
    let p2 = p1 + 8 + n2u;
    let n3 = match le_read(bytes, p2, 8) {
        Some(v) => v,
        None => {
            proof {
                assert(false);
            }
            return None;
        },
    };
    proof {
        lemma_le_val_bound(bytes@.subrange(p2 as int, p2 + 8));
        lemma_pow256_values();
    }
    if n3 + 16 > (blen - (p2 + 8)) as u128 {
        return None;
    }
    let n3u = n3 as usize;
    let idb = match read_bytes(bytes, p2 + 8, n3u) {
        Some(v) => v,
        None => {
            proof {
                assert(false);
            }
            return None;
        },
    };
    let p3 = p2 + 8 + n3u;
    let ver = match le_read(bytes, p3, 16) {
        Some(v) => v,
        None => {
            proof {
                assert(false);
            }
            return None;
        },
    };
    let it = IndexItem::from(osp, rel, ItemId::from_bytes(idb), Version(ver));
    Some((it, p3 + 16))
}

/// Parses `n` encoded items in a row starting at `pos`.
fn parse_items_run(bytes: &Vec<u8>, pos: usize, n: u128) -> (r: Option<(Vec<IndexItem>, usize)>)
    ensures
        match r {
            Some((v, p)) => spec_parse_items(bytes@, pos as int, n as nat) == Some(
                (v@.map_values(|it: IndexItem| it@), p as int),
            ) && (p <= bytes@.len() || p == pos),
            None => spec_parse_items(bytes@, pos as int, n as nat) is None,
        },
{
    let mut acc: Vec<IndexItem> = Vec::new();
    let mut cur: usize = pos;
    let mut i: u128 = 0;
    proof {
        assert(acc@.map_values(|it: IndexItem| it@) =~= Seq::<ItemModel>::empty());
    }
    while i < n
        invariant
            i <= n,
            cur <= bytes@.len() || cur == pos,
            acc@.len() == i,
            spec_parse_items(bytes@, pos as int, n as nat) == (match spec_parse_items(
                bytes@,
                cur as int,
                (n - i) as nat,
            ) {
                None => None::<(Seq<ItemModel>, int)>,
                Some((ms, p)) => Some((acc@.map_values(|it: IndexItem| it@) + ms, p)),
            }),
        decreases n - i,
    {
        match parse_one_item(bytes, cur) {
            Some((it, p)) => {
                let ghost acc0 = acc@.map_values(|x: IndexItem| x@);
                acc.push(it);
                proof {
                    assert(acc@.map_values(|x: IndexItem| x@) =~= acc0.push(it@));
                    assert forall|ms: Seq<ItemModel>|
                        true implies acc0 + (seq![it@] + ms) =~= acc0.push(it@) + ms by {}
                }
                cur = p;
            },
            None => {
                return None;
            },
        }
        i += 1;
    }
    proof {
        assert(spec_parse_items(bytes@, cur as int, 0) == Some(
            (Seq::<ItemModel>::empty(), cur as int),
        ));
        assert(acc@.map_values(|it: IndexItem| it@) + Seq::<ItemModel>::empty() =~= acc@.map_values(
            |it: IndexItem| it@,
        ));
    }
    Some((acc, cur))
}

impl Index {
    /// The bytes of this index as an on-disk document.
    pub fn encode(&self) -> (r: Vec<u8>)
        ensures
            r@ == spec_encode_index(self@),
            view_fits(self@),
    {
        proof {
            lemma_pow256_values();
        }
        let mut out = le_bytes(self.version.0, 16);
        let mut c1 = le_bytes(self.newest_items_by_source_path.len() as u128, 8);
        out.append(&mut c1);
        let ghost head1 = le_bytes_of(self@.version as nat, 16) + le_bytes_of(
            self@.newest.len(),
            8,
        );
        let mut i: usize = 0;
        proof {
            assert(spec_encode_items(self@.newest.subrange(0, 0)) =~= Seq::<u8>::empty());
            assert(out@ =~= head1 + spec_encode_items(self@.newest.subrange(0, 0)));
        }
        while i < self.newest_items_by_source_path.len()
            invariant
                i <= self@.newest.len(),
                self@.newest.len() == self.newest_items_by_source_path@.len(),
                forall|j: int|
                    0 <= j < self@.newest.len() ==> self.newest_items_by_source_path@[j]@
                        == self@.newest[j],
                out@ == head1 + spec_encode_items(self@.newest.subrange(0, i as int)),
                items_fit(self@.newest.subrange(0, i as int)),
            decreases self@.newest.len() - i,
        {
            let ghost pre = self@.newest.subrange(0, i as int);
            encode_item_into(&mut out, &self.newest_items_by_source_path[i]);
            proof {
                lemma_encode_items_snoc(pre, self@.newest[i as int]);
                assert(self@.newest.subrange(0, i + 1 as int) =~= pre.push(
                    self@.newest[i as int],
                ));
                assert(out@ =~= head1 + spec_encode_items(self@.newest.subrange(0, i + 1 as int)));
                assert(items_fit(self@.newest.subrange(0, i + 1 as int)));
            }
            i += 1;
        }
        proof {
            assert(self@.newest.subrange(0, self@.newest.len() as int) =~= self@.newest);
        }
        let mut c2 = le_bytes(self.items_by_file_id.len() as u128, 8);
        out.append(&mut c2);
        let ghost head2 = head1 + spec_encode_items(self@.newest) + le_bytes_of(
            self@.by_id.len(),
            8,
        );
        let mut j: usize = 0;
        proof {
            assert(spec_encode_items(self@.by_id.subrange(0, 0)) =~= Seq::<u8>::empty());
            assert(out@ =~= head2 + spec_encode_items(self@.by_id.subrange(0, 0)));
        }
        while j < self.items_by_file_id.len()
            invariant
                j <= self@.by_id.len(),
                self@.by_id.len() == self.items_by_file_id@.len(),
                forall|a: int|
                    0 <= a < self@.by_id.len() ==> self.items_by_file_id@[a]@ == self@.by_id[a],
                out@ == head2 + spec_encode_items(self@.by_id.subrange(0, j as int)),
                items_fit(self@.by_id.subrange(0, j as int)),
            decreases self@.by_id.len() - j,
        {
            let ghost pre = self@.by_id.subrange(0, j as int);
            encode_item_into(&mut out, &self.items_by_file_id[j]);
            proof {
                lemma_encode_items_snoc(pre, self@.by_id[j as int]);
                assert(self@.by_id.subrange(0, j + 1 as int) =~= pre.push(self@.by_id[j as int]));
                assert(out@ =~= head2 + spec_encode_items(self@.by_id.subrange(0, j + 1 as int)));
                assert(items_fit(self@.by_id.subrange(0, j + 1 as int)));
            }
            j += 1;
        }
        proof {
            assert(self@.by_id.subrange(0, self@.by_id.len() as int) =~= self@.by_id);
            assert(out@ =~= spec_encode_index(self@));
            assert(items_fit(self@.newest));
            assert(items_fit(self@.by_id));
        }
        out
    }

    /// The index document a byte string holds, if it is a complete
    /// well-shaped encoding of a loadable index.
    pub fn parse(bytes: &Vec<u8>) -> (r: Option<Index>)
        ensures
            match r {
                Some(ix) => ix.wf() && spec_parse_index(bytes@) == Some(ix@),
                None => match spec_parse_index(bytes@) {
                    None => true,
                    Some(v) => !view_wf(v),
                },
            },
    {
        let blen = bytes.len();
        let ver = match le_read(bytes, 0, 16) {
            Some(v) => v,
            None => {
                return None;
            },
        };
        let n1 = match le_read(bytes, 16, 8) {
            Some(v) => v,
            None => {
                return None;
            },
        };
        let (newest, p) = match parse_items_run(bytes, 24, n1) {
            Some(t) => t,
            None => {
                return None;
            },
        };
        let n2 = match le_read(bytes, p, 8) {
            Some(v) => v,
            None => {
                return None;
            },
        };
        let (by_id, p2) = match parse_items_run(bytes, p + 8, n2) {
            Some(t) => t,
            None => {
                return None;
            },
        };
        if p2 != blen {
            return None;
        }
        let ix = Index {
            newest_items_by_source_path: newest,
            items_by_file_id: by_id,
            version: Version(ver),
        };
        proof {
            assert(spec_parse_index(bytes@) == Some(ix@));
        }
        if !paths_distinct_check(&ix.newest_items_by_source_path) {
            return None;
        }
        if !ids_distinct_check(&ix.items_by_file_id) {
            return None;
        }
        if !linked_check(&ix.newest_items_by_source_path, &ix.items_by_file_id) {
            return None;
        }
        Some(ix)
    }
}


/// The file name of the index document under a repository root.
pub open spec fn index_name() -> Seq<u8> {
    seq![105u8, 110u8, 100u8, 101u8, 120u8]
}

/// Where the index document lives under a repository root.
pub open spec fn spec_index_path(root: Seq<u8>) -> Seq<u8> {
    spec_join(root, index_name())
}

/// The index document's path under the given repository root.
pub fn index_file_path_for_repository_path(path: &Vec<u8>) -> (r: Vec<u8>)
    ensures
        r@ == spec_index_path(path@),
{
    let name: Vec<u8> = vec![105u8, 110u8, 100u8, 101u8, 120u8];
    proof {
        assert(name@ =~= index_name());
    }
    join(path, &name)
}

/// A lockfile never stands where the index document does.
pub proof fn lemma_index_path_not_lock(root: Seq<u8>, k: Seq<u8>)
    requires
        spec_is_lock_path(k, root),
    ensures
        k != spec_index_path(root),
{
    if k == spec_index_path(root) {
        assert(k.len() == root.len() + 6);
        assert(k[k.len() - 1] == index_name()[4]);
        assert(k.subrange(k.len() - 5, k.len() as int) == lock_suffix());
        assert(k.subrange(k.len() - 5, k.len() as int)[4] == lock_suffix()[4]);
        assert(k[k.len() - 1] == lock_suffix()[4]);
        assert(index_name()[4] == 120u8 && lock_suffix()[4] == 107u8);
        assert(false);
    }
}

/// The document a fresh repository root receives: no items, and the
/// initial version bumped once by the save that wrote it.
pub open spec fn spec_fresh_index_view() -> IndexView {
    IndexView { newest: Seq::empty(), by_id: Seq::empty(), version: 2 }
}

/// What a successful save leaves in memory: the on-disk document (when one
/// was there, necessarily loadable) merged in, and the document version one
/// past the greater of the two.
pub open spec fn save_outcome_ok(
    old_self: Index,
    old_fs: Map<Seq<u8>, Seq<u8>>,
    root: Seq<u8>,
    new_self: Index,
) -> bool {
    let p = spec_index_path(root);
    if old_fs.contains_key(p) {
        match spec_parse_index(old_fs[p]) {
            Some(d) => view_wf(d) && new_self.newest_map() == merge_newest_maps(
                old_self.newest_map(),
                item_map_of(d.newest, key_of_path()),
            ) && new_self.id_map() == merge_id_maps(
                old_self.id_map(),
                item_map_of(d.by_id, key_of_id()),
            ) && new_self@.version == vnext(
                if d.version > old_self@.version {
                    d.version
                } else {
                    old_self@.version
                },
            ),
            None => false,
        }
    } else {
        new_self.newest_map() == old_self.newest_map() && new_self.id_map()
            == old_self.id_map() && new_self@.version == vnext(old_self@.version)
    }
}

impl Index {
    /// Runs the save protocol against the given repository root: takes the
    /// lock, merges the on-disk document (if any) into this one, bumps the
    /// document version past both, writes the new document atomically, and
    /// releases the lock.
    pub fn save(&mut self, fs: &mut Fs, repository_path: &Vec<u8>) -> (r: Result<
        (),
        BakareError,
    >)
        requires
            old(self).wf(),
            old(fs).wf(),
        ensures
            final(self).wf(),
            final(fs).wf(),
            match r {
                Ok(()) => !spec_any_lock(old(fs)@, repository_path@) && save_outcome_ok(
                    *old(self),
                    old(fs)@,
                    repository_path@,
                    *final(self),
                ) && final(fs)@ == old(fs)@.insert(
                    spec_index_path(repository_path@),
                    spec_encode_index(final(self)@),
                ) && view_fits(final(self)@),
                Err(e) => final(fs)@ == old(fs)@ && *final(self) == *old(self) && ((e
                    == BakareError::LockTimeout && spec_any_lock(old(fs)@, repository_path@)) || (e
                    == BakareError::IndexLoadingError && !spec_any_lock(
                    old(fs)@,
                    repository_path@,
                ) && old(fs)@.contains_key(spec_index_path(repository_path@)) && (match
                    spec_parse_index(old(fs)@[spec_index_path(repository_path@)]) {
                    None => true,
                    Some(v) => !view_wf(v),
                }))),
            },
            forall|prefix: Seq<u8>|
                (r is Err || !spec_starts_with(spec_index_path(repository_path@), prefix))
                    ==> final(fs).spec_weight(prefix) == old(fs).spec_weight(prefix) + (match r {
                    Ok(()) => if old(fs)@.contains_key(spec_index_path(repository_path@))
                        && spec_starts_with(spec_index_path(repository_path@), prefix) {
                        spec_encode_index(final(self)@).len() - old(fs)@[spec_index_path(
                            repository_path@,
                        )].len()
                    } else if spec_starts_with(spec_index_path(repository_path@), prefix) {
                        spec_encode_index(final(self)@).len() as int
                    } else {
                        0
                    },
                    Err(_) => 0,
                }),
    {
        let the_lock = match Lock::lock(fs, repository_path) {
            Ok(l) => l,
            Err(_) => {
                return Err(BakareError::LockTimeout);
            },
        };
        let index_path = index_file_path_for_repository_path(repository_path);
        proof {
            lemma_index_path_not_lock(repository_path@, the_lock.spec_path());
        }
        let doc_opt: Option<Vec<u8>> = match fs.read(&index_path) {
            Some(c) => Some(c.clone()),
            None => None,
        };
        match doc_opt {
            Some(doc) => {
                match Index::parse(&doc) {
                    Some(disk) => {
                        self.merge_items_by_file_id(&disk);
                        proof {
                            assert forall|k: Seq<u8>| #[trigger]
                                disk.newest_map().contains_key(k) implies self.id_map().contains_key(
                                disk.newest_map()[k].id,
                            ) by {
                                assert(disk.id_map().contains_key(disk.newest_map()[k].id));
                            }
                        }
                        self.merge_newest_items(&disk);
                        self.version = self.version.max_merge(&disk.version()).next();
                    },
                    None => {
                        the_lock.release(fs);
                        proof {
                            assert(final(fs)@ =~= old(fs)@);
                        }
                        return Err(BakareError::IndexLoadingError);
                    },
                }
            },
            None => {
                self.version = self.version.next();
            },
        }
        let doc2 = self.encode();
        fs.write(&index_path, doc2);
        the_lock.release(fs);
        proof {
            assert(final(fs)@ =~= old(fs)@.insert(
                spec_index_path(repository_path@),
                spec_encode_index(final(self)@),
            ));
        }
        Ok(())
    }

    /// Loads the index document under the given repository root, taking the
    /// lock around the read; a root without a document gets a fresh empty
    /// index saved to it first.
    pub fn load(fs: &mut Fs, repository_path: &Vec<u8>) -> (r: Result<Index, BakareError>)
        requires
            old(fs).wf(),
        ensures
            final(fs).wf(),
            match r {
                Ok(ix) => ix.wf() && !spec_any_lock(old(fs)@, repository_path@) && (
                if old(fs)@.contains_key(spec_index_path(repository_path@)) {
                    spec_parse_index(old(fs)@[spec_index_path(repository_path@)]) == Some(ix@)
                        && final(fs)@ == old(fs)@
                } else {
                    ix@.newest.len() == 0 && ix@.by_id.len() == 0 && ix@.version == 2
                        && final(fs)@ == old(fs)@.insert(
                        spec_index_path(repository_path@),
                        spec_encode_index(ix@),
                    )
                }),
                Err(e) => final(fs)@ == old(fs)@ && ((e == BakareError::LockTimeout
                    && spec_any_lock(old(fs)@, repository_path@)) || (e
                    == BakareError::IndexLoadingError && old(fs)@.contains_key(
                    spec_index_path(repository_path@),
                ) && (match spec_parse_index(old(fs)@[spec_index_path(repository_path@)]) {
                    None => true,
                    Some(v) => !view_wf(v),
                }))),
            },
            forall|prefix: Seq<u8>|
                (old(fs)@.contains_key(spec_index_path(repository_path@)) || !spec_starts_with(
                    spec_index_path(repository_path@),
                    prefix,
                )) ==> final(fs).spec_weight(prefix) == old(fs).spec_weight(prefix),
    {
        let index_path = index_file_path_for_repository_path(repository_path);
        if !fs.contains_path(&index_path) {
            let mut fresh = Index::new();
            match fresh.save(fs, repository_path) {
                Ok(()) => {
                    proof {
                        assert(fresh.newest_map() =~= Map::<Seq<u8>, ItemModel>::empty());
                        assert(fresh.id_map() =~= Map::<Seq<u8>, ItemModel>::empty());
                        assert(fresh@.newest.len() == 0) by {
                            lemma_item_map_membership(fresh@.newest, key_of_path());
                            if fresh@.newest.len() > 0 {
                                assert(fresh.newest_map().contains_key(
                                    key_of_path()(fresh@.newest[0]),
                                ));
                            }
                        }
                        assert(fresh@.by_id.len() == 0) by {
                            lemma_item_map_membership(fresh@.by_id, key_of_id());
                            if fresh@.by_id.len() > 0 {
                                assert(fresh.id_map().contains_key(key_of_id()(fresh@.by_id[0])));
                            }
                        }
                    }
                    return Ok(fresh);
                },
                Err(e) => {
                    return Err(e);
                },
            }
        }
        let the_lock = match Lock::lock(fs, repository_path) {
            Ok(l) => l,
            Err(_) => {
                return Err(BakareError::LockTimeout);
            },
        };
        proof {
            lemma_index_path_not_lock(repository_path@, the_lock.spec_path());
        }
        let doc: Vec<u8> = match fs.read(&index_path) {
            Some(c) => c.clone(),
            None => {
                proof {
                    assert(false);
                }
                Vec::new()
            },
        };
        let parsed = Index::parse(&doc);
        the_lock.release(fs);
        proof {
            assert(final(fs)@ =~= old(fs)@);
        }
        match parsed {
            Some(ix) => Ok(ix),
            None => Err(BakareError::IndexLoadingError),
        }
    }
}

} // verus!
