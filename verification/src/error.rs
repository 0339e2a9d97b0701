//! The error kinds that the backup core can signal.

use vstd::prelude::*;

verus! {

/// Everything that can go wrong inside the backup core.
///
/// The kinds mirror the behavioural classes of the engine: construction-time
/// misuse (`SourceSameAsRepository`), call-time misuse (the two
/// `..NotAbsolute` kinds), a repository whose stored data or index cannot be
/// trusted (`CorruptedRepoNoFile`, `IndexLoadingError`), and a lock deadline
/// that ran out (`LockTimeout`).
#[derive(Clone, Copy, Debug, PartialEq, Eq, Structural)]
pub enum BakareError {
    /// A backup was asked to write into a tree it is reading from.
    SourceSameAsRepository,
    /// A repository root must be given as an absolute path.
    RepositoryPathNotAbsolute,
    /// A path handed to `store` or `save` must be absolute.
    PathToStoreNotAbsolute,
    /// A directory stood where a file was needed.
    DirectoryNotFile,
    /// An index item points at an object that is not in the repository.
    CorruptedRepoNoFile,
    /// The on-disk index document could not be decoded.
    IndexLoadingError,
    /// The repository lock could not be acquired before the deadline.
    LockTimeout,
}

} // verus!
