//! The externally visible form of an index item: an index item joined with
//! the repository root it lives under.

use vstd::prelude::*;
use crate::error::BakareError;
use crate::fs::Fs;
use crate::item_id::ItemId;
use crate::paths::{
    spec_is_absolute, spec_join, spec_strip_leading_sep, is_absolute, join, strip_leading_sep,
};
use crate::version::Version;

verus! {

/// The mathematical content of a [`RepositoryItem`].
pub ghost struct RepoItemModel {
    /// Path of the stored object relative to the repository root.
    pub relative_path: Seq<u8>,
    /// Absolute path of the stored object.
    pub absolute_path: Seq<u8>,
    /// Absolute path the revision was backed up from.
    pub original_source_path: Seq<u8>,
    /// The content fingerprint of the stored bytes.
    pub id: Seq<u8>,
    /// The revision number.
    pub version: int,
}

/// One restorable revision: an index item together with the absolute
/// on-disk path of its stored object.
#[derive(Clone, Debug, PartialEq, Eq)]
pub struct RepositoryItem {
    relative_path: Vec<u8>,
    absolute_path: Vec<u8>,
    original_source_path: Vec<u8>,
    id: ItemId,
    version: Version,
}

impl View for RepositoryItem {
    type V = RepoItemModel;

    closed spec fn view(&self) -> RepoItemModel {
        RepoItemModel {
            relative_path: self.relative_path@,
            absolute_path: self.absolute_path@,
            original_source_path: self.original_source_path@,
            id: self.id@,
            version: self.version.spec_value(),
        }
    }
}

impl RepositoryItem {
    /// A restorable revision with the given fields.
    pub fn from(
        original_source_path: &Vec<u8>,
        absolute_path: &Vec<u8>,
        relative_path: &Vec<u8>,
        id: ItemId,
        version: Version,
    ) -> (r: RepositoryItem)
        ensures
            r@.original_source_path == original_source_path@,
            r@.absolute_path == absolute_path@,
            r@.relative_path == relative_path@,
            r@.id == id@,
            r@.version == version.spec_value(),
    {
        RepositoryItem {
            relative_path: relative_path.clone(),
            absolute_path: absolute_path.clone(),
            original_source_path: original_source_path.clone(),
            id,
            version,
        }
    }

    /// Reconstructs this revision's file under `save_to`: the stored
    /// object's bytes are written to the original source path re-rooted at
    /// `save_to`.  A missing object means the repository is corrupted.
    pub fn save(&self, fs: &mut Fs, save_to: &Vec<u8>) -> (r: Result<(), BakareError>)
        requires
            old(fs).wf(),
        ensures
            final(fs).wf(),
            match r {
                Ok(()) => spec_is_absolute(save_to@) && old(fs)@.contains_key(
                    self@.absolute_path,
                ) && final(fs)@ == old(fs)@.insert(
                    spec_join(save_to@, spec_strip_leading_sep(self@.original_source_path)),
                    old(fs)@[self@.absolute_path],
                ),
                Err(e) => *final(fs) == *old(fs) && ((e == BakareError::PathToStoreNotAbsolute
                    && !spec_is_absolute(save_to@)) || (e == BakareError::CorruptedRepoNoFile
                    && spec_is_absolute(save_to@) && !old(fs)@.contains_key(
                    self@.absolute_path,
                ))),
            },
    {
        if !is_absolute(save_to) {
            return Err(BakareError::PathToStoreNotAbsolute);
        }
        let source_rel = strip_leading_sep(&self.original_source_path);
        let target = join(save_to, &source_rel);
        let contents: Vec<u8> = match fs.read(&self.absolute_path) {
            Some(c) => c.clone(),
            None => {
                return Err(BakareError::CorruptedRepoNoFile);
            },
        };
        fs.write(&target, contents);
        Ok(())
    }

    /// The stored object's path relative to the repository root.
    pub fn relative_path(&self) -> (r: &Vec<u8>)
        ensures
            r@ == self@.relative_path,
    {
        &self.relative_path
    }

    /// The absolute path the revision was backed up from.
    pub fn original_source_path(&self) -> (r: &Vec<u8>)
        ensures
            r@ == self@.original_source_path,
    {
        &self.original_source_path
    }

    /// The revision number.
    pub fn version(&self) -> (r: Version)
        ensures
            r.spec_value() == self@.version,
    {
        self.version
    }

    /// The content fingerprint.
    pub fn id(&self) -> (r: ItemId)
        ensures
            r@ == self@.id,
    {
        self.id.duplicate()
    }

    /// A copy that is known to carry the same fields.
    pub fn duplicate(&self) -> (r: RepositoryItem)
        ensures
            r@ == self@,
    {
        RepositoryItem {
            relative_path: self.relative_path.clone(),
            absolute_path: self.absolute_path.clone(),
            original_source_path: self.original_source_path.clone(),
            id: self.id.duplicate(),
            version: self.version,
        }
    }
}

} // verus!
