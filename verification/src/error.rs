//! The ways in which an operation of this library can fail.

use vstd::prelude::*;

verus! {

/// Why a request was refused or could not be carried out.
#[derive(Debug, Clone, Copy, PartialEq, Eq, Structural)]
pub enum Error {
    /// An argument names no path: it is empty or holds no usable segment.
    InvalidPath,
    /// A step on the file tree could not be carried out.
    IoFailure,
    /// Nothing is staged in the trash for the path that was to be restored.
    NotTrashed,
    /// The newest journal entry is of a kind that cannot be reversed.
    Unrecoverable,
    /// The journal holds no entry.
    JournalEmpty,
}

impl Error {
    /// The failure in words, fit for a message to the user.
    pub fn describe(&self) -> (text: &'static str)
        ensures
            text@ == failure_text(*self),
    {
        match self {
            Error::InvalidPath => "the argument names no path",
            Error::IoFailure => "the file system refused the step",
            Error::NotTrashed => "nothing is in the trash for this path",
            Error::Unrecoverable => "what was deleted for good cannot be brought back",
            Error::JournalEmpty => "the journal is empty",
        }
    }
}

/// The failure in words.
pub open spec fn failure_text(e: Error) -> Seq<char> {
    match e {
        Error::InvalidPath => "the argument names no path"@,
        Error::IoFailure => "the file system refused the step"@,
        Error::NotTrashed => "nothing is in the trash for this path"@,
        Error::Unrecoverable => "what was deleted for good cannot be brought back"@,
        Error::JournalEmpty => "the journal is empty"@,
    }
}

} // verus!
