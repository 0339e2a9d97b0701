//! The record describing one backed-up revision of one source path.

use vstd::prelude::*;
use crate::item_id::ItemId;
use crate::version::Version;

verus! {

/// The mathematical content of an [`IndexItem`].
pub ghost struct ItemModel {
    /// Path of the stored object relative to the repository root.
    pub relative_path: Seq<u8>,
    /// Absolute path of the file on the host it was backed up from.
    pub original_source_path: Seq<u8>,
    /// The content fingerprint of the stored bytes.
    pub id: Seq<u8>,
    /// The revision number of this source path.
    pub version: int,
}

/// One backed-up revision of one source path: where it came from, where its
/// bytes live relative to the repository root, the fingerprint of those
/// bytes, and its revision number.  Items are immutable; a newer revision is
/// a new item.
#[derive(Clone, Debug, PartialEq, Eq)]
pub struct IndexItem {
    relative_path: Vec<u8>,
    original_source_path: Vec<u8>,
    id: ItemId,
    version: Version,
}

impl View for IndexItem {
    type V = ItemModel;

    closed spec fn view(&self) -> ItemModel {
        ItemModel {
            relative_path: self.relative_path@,
            original_source_path: self.original_source_path@,
            id: self.id@,
            version: self.version.spec_value(),
        }
    }
}

impl IndexItem {
    /// A first or reconstructed revision record with the given fields.
    pub fn from(
        original_source_path: Vec<u8>,
        relative_path: Vec<u8>,
        id: ItemId,
        version: Version,
    ) -> (r: IndexItem)
        ensures
            r@.original_source_path == original_source_path@,
            r@.relative_path == relative_path@,
            r@.id == id@,
            r@.version == version.spec_value(),
    {
        IndexItem { relative_path, original_source_path, id, version }
    }

    /// The record of the next revision of the same source path: fresh
    /// content and location, a strictly greater version.
    pub fn next_version(&self, id: ItemId, relative_path: Vec<u8>) -> (r: IndexItem)
        ensures
            r@.original_source_path == self@.original_source_path,
            r@.relative_path == relative_path@,
            r@.id == id@,
            r@.version == if self@.version < u128::MAX { self@.version + 1 } else { self@.version },
    {
        IndexItem {
            original_source_path: self.original_source_path.clone(),
            version: self.version.next(),
            relative_path,
            id,
        }
    }

    /// The revision number.
    pub fn version(&self) -> (r: Version)
        ensures
            r.spec_value() == self@.version,
    {
        self.version
    }

    /// The content fingerprint.
    pub fn id(&self) -> (r: ItemId)
        ensures
            r@ == self@.id,
    {
        self.id.duplicate()
    }

    /// The stored object's path relative to the repository root.
    pub fn relative_path(&self) -> (r: &Vec<u8>)
        ensures
            r@ == self@.relative_path,
    {
        &self.relative_path
    }

    /// The absolute path the revision was backed up from.
    pub fn original_source_path(&self) -> (r: &Vec<u8>)
        ensures
            r@ == self@.original_source_path,
    {
        &self.original_source_path
    }

    /// A copy that is known to carry the same fields.
    pub fn duplicate(&self) -> (r: IndexItem)
        ensures
            r@ == self@,
    {
        IndexItem {
            relative_path: self.relative_path.clone(),
            original_source_path: self.original_source_path.clone(),
            id: self.id.duplicate(),
            version: self.version,
        }
    }
}

} // verus!
