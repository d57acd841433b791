//! The ways in which an operation on a repository can fail.

use vstd::prelude::*;

verus! {

/// Why an operation failed. A failed operation leaves the repository as it
/// was.
#[derive(Clone, Copy, Debug, PartialEq, Eq, Structural)]
pub enum Error {
    /// The repository layout already exists.
    AlreadyInitialized,
    /// There is no repository here.
    NotARepository,
    /// Nothing exists at the path given.
    PathNotFound,
    /// No object is stored under the hash given.
    ObjectNotFound,
    /// A stored object is missing or cannot be read as what it should be.
    CorruptObject,
    /// The persisted index, references or head cannot be read.
    CorruptState,
    /// The staged tree equals the tree of the current commit.
    NothingToCommit,
    /// The working directory differs from the tree of the current commit.
    UncommittedChanges,
    /// The name is neither a branch nor the start of a commit hash.
    UnknownReference,
    /// A branch of that name exists already.
    BranchExists,
}

} // verus!
