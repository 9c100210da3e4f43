//! The ways in which an operation on a repository can fail.

use vstd::prelude::*;

verus! {

/// Why an operation was abandoned.
#[derive(Clone, Copy, Debug, PartialEq, Eq, Structural)]
pub enum Error {
    /// No object is stored under the id, or no reference resolves the name.
    NotFound,
    /// The object stored under the id is of another kind than was asked for.
    TypeMismatch,
    /// Stored bytes cannot be read as the structure that they should hold.
    CorruptObject,
    /// A commit's payload does not have the form of a commit.
    InvalidCommitFormat,
    /// A tree entry's name is not a single path segment.
    InvalidPath,
}

impl Error {
    /// The description of each error.
    pub open spec fn spec_message(self) -> Seq<char> {
        match self {
            Error::NotFound => "not found"@,
            Error::TypeMismatch => "object is of another kind"@,
            Error::CorruptObject => "corrupt object"@,
            Error::InvalidCommitFormat => "invalid commit format"@,
            Error::InvalidPath => "invalid path in tree"@,
        }
    }

    /// A short description, for diagnostics.
    pub fn message(&self) -> (text: &'static str)
        ensures
            text@ == self.spec_message(),
    {
        match self {
            Error::NotFound => "not found",
            Error::TypeMismatch => "object is of another kind",
            Error::CorruptObject => "corrupt object",
            Error::InvalidCommitFormat => "invalid commit format",
            Error::InvalidPath => "invalid path in tree",
        }
    }
}

} // verus!
