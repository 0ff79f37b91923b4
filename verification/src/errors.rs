//! The error taxonomy of the version-control core. Every failure carries the
//! offending path or name so the command layer can compose a message.

use vstd::prelude::*;

verus! {

/// A typed failure of a repository operation, with the offending path or name.
#[derive(Debug)]
pub enum VcsError {
    /// The metadata directory is absent where one was required.
    RepositoryNotInitialized,
    /// A source path to stage does not exist.
    PathNotFound(String),
    /// A path cannot be expressed relative to the repository root.
    PathOutsideRepository(String),
    /// A digest has no corresponding entry in the object store.
    ObjectNotFound(String),
    /// A named branch does not exist.
    BranchNotFound(String),
    /// A branch of that name already exists.
    BranchExists(String),
    /// A branch name is empty or contains a path separator.
    InvalidBranchName(String),
    /// The branch to delete is the active branch or the protected default.
    CannotDeleteCurrentOrDefaultBranch(String),
    /// The active branch has no commit yet.
    NoCommits(String),
    /// A commit was attempted with an empty staging index.
    EmptyIndex,
    /// The path to unstage has no exact entry in the index.
    NotStaged(String),
    /// The path to restore has no exact entry in the snapshot.
    PathNotInSnapshot(String),
    /// A stored index, snapshot or commit record does not parse.
    MalformedRecord(String),
    /// An underlying read or write failed.
    IoFailure(String),
}

impl VcsError {
    /// A short machine-readable label for the error kind, for the command
    /// layer's messages.
    pub fn kind_label(&self) -> (r: &'static str)
        ensures
            r@ == self.spec_kind_label(),
    {
        match self {
            VcsError::RepositoryNotInitialized => "repository not initialized",
            VcsError::PathNotFound(_) => "path not found",
            VcsError::PathOutsideRepository(_) => "path outside repository",
            VcsError::ObjectNotFound(_) => "object not found",
            VcsError::BranchNotFound(_) => "branch not found",
            VcsError::BranchExists(_) => "branch exists",
            VcsError::InvalidBranchName(_) => "invalid branch name",
            VcsError::CannotDeleteCurrentOrDefaultBranch(_) => "cannot delete current or default branch",
            VcsError::NoCommits(_) => "no commits",
            VcsError::EmptyIndex => "empty index",
            VcsError::NotStaged(_) => "not staged",
            VcsError::PathNotInSnapshot(_) => "path not in snapshot",
            VcsError::MalformedRecord(_) => "malformed record",
            VcsError::IoFailure(_) => "io failure",
        }
    }

    /// The label that `kind_label` returns for each variant.
    pub open spec fn spec_kind_label(&self) -> Seq<char> {
        match self {
            VcsError::RepositoryNotInitialized => "repository not initialized"@,
            VcsError::PathNotFound(_) => "path not found"@,
            VcsError::PathOutsideRepository(_) => "path outside repository"@,
            VcsError::ObjectNotFound(_) => "object not found"@,
            VcsError::BranchNotFound(_) => "branch not found"@,
            VcsError::BranchExists(_) => "branch exists"@,
            VcsError::InvalidBranchName(_) => "invalid branch name"@,
            VcsError::CannotDeleteCurrentOrDefaultBranch(_) => "cannot delete current or default branch"@,
            VcsError::NoCommits(_) => "no commits"@,
            VcsError::EmptyIndex => "empty index"@,
            VcsError::NotStaged(_) => "not staged"@,
            VcsError::PathNotInSnapshot(_) => "path not in snapshot"@,
            VcsError::MalformedRecord(_) => "malformed record"@,
            VcsError::IoFailure(_) => "io failure"@,
        }
    }

    /// The offending path or name attached to the error, where one is.
    pub fn offending(&self) -> (r: Option<&String>)
        ensures
            match self {
                VcsError::RepositoryNotInitialized | VcsError::EmptyIndex => r is None,
                VcsError::PathNotFound(s)
                | VcsError::PathOutsideRepository(s)
                | VcsError::ObjectNotFound(s)
                | VcsError::BranchNotFound(s)
                | VcsError::BranchExists(s)
                | VcsError::InvalidBranchName(s)
                | VcsError::CannotDeleteCurrentOrDefaultBranch(s)
                | VcsError::NoCommits(s)
                | VcsError::NotStaged(s)
                | VcsError::PathNotInSnapshot(s)
                | VcsError::MalformedRecord(s)
                | VcsError::IoFailure(s) => r matches Some(v) && v@ == s@,
            },
    {
        match self {
            VcsError::RepositoryNotInitialized | VcsError::EmptyIndex => None,
            VcsError::PathNotFound(s)
            | VcsError::PathOutsideRepository(s)
            | VcsError::ObjectNotFound(s)
            | VcsError::BranchExists(s)
            | VcsError::BranchNotFound(s)
            | VcsError::InvalidBranchName(s)
            | VcsError::CannotDeleteCurrentOrDefaultBranch(s)
            | VcsError::NoCommits(s)
            | VcsError::NotStaged(s)
            | VcsError::PathNotInSnapshot(s)
            | VcsError::MalformedRecord(s)
            | VcsError::IoFailure(s) => Some(s),
        }
    }
}

} // verus!
