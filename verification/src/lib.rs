//! A deduplicating, versioning file-backup core.
//!
//! A source tree is written into a content-addressed repository and any
//! version of any file can later be restored from it.  The filesystem the
//! core works against is the in-memory value [`fs::Fs`]; a thin runner maps
//! it to a real disk.

pub mod assertions;
pub mod backup;
pub mod codec;
pub mod error;
pub mod error_correcting_encoder;
pub mod fs;
pub mod index;
pub mod index_item;
pub mod item_id;
pub mod laws;
pub mod lock;
pub mod paths;
pub mod repository;
pub mod repository_item;
pub mod restore;
pub mod version;
