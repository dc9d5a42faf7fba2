//! The ways a journal operation can fail.

use vstd::prelude::*;

verus! {

/// Why a journal operation did not complete.
#[derive(Clone, Copy, Debug, PartialEq, Eq, Structural)]
pub enum Error {
    /// The backing store could not be opened or created.
    StorageUnavailable,
    /// A read or write against an open store failed.
    QueryFailed,
    /// A year, month and day that do not name a day of the calendar.
    InvalidDate,
}

impl Error {
    /// The error in a few words, for a person to read.
    pub open spec fn message_text(self) -> Seq<char> {
        match self {
            Error::StorageUnavailable => "the note store cannot be opened"@,
            Error::QueryFailed => "the note store did not answer"@,
            Error::InvalidDate => "no such day in the calendar"@,
        }
    }

    /// The error in a few words, for a person to read.
    pub fn message(&self) -> (text: &'static str)
        ensures
            text@ == self.message_text(),
    {
        match self {
            Error::StorageUnavailable => "the note store cannot be opened",
            Error::QueryFailed => "the note store did not answer",
            Error::InvalidDate => "no such day in the calendar",
        }
    }
}

} // verus!
