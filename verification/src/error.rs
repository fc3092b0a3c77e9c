//! The ways in which an operation on a repository can fail.

use vstd::prelude::*;
use vstd::string::StringExecFns;

verus! {

/// Why an operation failed.
#[derive(Clone, Copy, PartialEq, Eq, Structural, Debug)]
pub enum Error {
    /// No repository directory was found from the given path upwards.
    RepositoryNotFound,
    /// A path has no name or no directory to stand in.
    InvalidPath,
    /// Reading or writing data failed.
    IoError,
    /// A line of the index is not of the form `<path> <kind> <hash>`.
    IndexCorrupt,
    /// A commit was asked for, but the index holds no tree for the root.
    NoIndexEntry,
    /// `HEAD` does not name a branch.
    BranchHeadUnreadable,
    /// A branch of that name exists already.
    BranchAlreadyExists,
    /// There is no branch of that name.
    BranchNotFound,
    /// The branch that is checked out cannot be deleted.
    CannotDeleteCurrentBranch,
    /// The operation is known, but not supported yet.
    NotYetSupported,
    /// The operation is not known.
    UnknownOperation,
    /// The operation needs an argument that was not given.
    MissingArgument,
    /// An object is too long to be hashed.
    ObjectTooLarge,
    /// The clock gave no time that can be written.
    ClockUnreadable,
}

impl Error {
    /// The words that describe the failure.
    pub open spec fn words(self) -> Seq<char> {
        match self {
            Error::RepositoryNotFound => "no repository found"@,
            Error::InvalidPath => "invalid path"@,
            Error::IoError => "reading or writing failed"@,
            Error::IndexCorrupt => "the index is corrupt"@,
            Error::NoIndexEntry => "nothing is staged"@,
            Error::BranchHeadUnreadable => "HEAD names no branch"@,
            Error::BranchAlreadyExists => "the branch exists already"@,
            Error::BranchNotFound => "no such branch"@,
            Error::CannotDeleteCurrentBranch => "the current branch cannot be deleted"@,
            Error::NotYetSupported => "not supported yet"@,
            Error::UnknownOperation => "unknown operation"@,
            Error::MissingArgument => "an argument is missing"@,
            Error::ObjectTooLarge => "the object is too large"@,
            Error::ClockUnreadable => "the clock cannot be read"@,
        }
    }

    /// Describes the failure in words.
    pub fn to_string(&self) -> (text: String)
        ensures
            text@ == self.words(),
    {
        match self {
            Error::RepositoryNotFound => String::from_str("no repository found"),
            Error::InvalidPath => String::from_str("invalid path"),
            Error::IoError => String::from_str("reading or writing failed"),
            Error::IndexCorrupt => String::from_str("the index is corrupt"),
            Error::NoIndexEntry => String::from_str("nothing is staged"),
            Error::BranchHeadUnreadable => String::from_str("HEAD names no branch"),
            Error::BranchAlreadyExists => String::from_str("the branch exists already"),
            Error::BranchNotFound => String::from_str("no such branch"),
            Error::CannotDeleteCurrentBranch => String::from_str(
                "the current branch cannot be deleted",
            ),
            Error::NotYetSupported => String::from_str("not supported yet"),
            Error::UnknownOperation => String::from_str("unknown operation"),
            Error::MissingArgument => String::from_str("an argument is missing"),
            Error::ObjectTooLarge => String::from_str("the object is too large"),
            Error::ClockUnreadable => String::from_str("the clock cannot be read"),
        }
    }
}

} // verus!
