use vstd::prelude::*;

verus! {

/// The ways an operation on the repository can fail.
#[derive(Clone, Copy, Debug, PartialEq, Eq, Structural)]
pub enum GitError {
    /// An object or reference that was asked for is absent.
    NotFound,
    /// An object's bytes cannot be parsed as the record they should hold.
    MalformedObject,
    /// A checkout or branch switch is blocked by uncommitted changes.
    DirtyWorkingTree,
    /// A branch was to be created or checked out before any commit exists.
    NoCommitsOnBranch,
    /// A reference operation names a reference that may not be touched.
    InvalidReference,
}

} // verus!
