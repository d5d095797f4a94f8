//! The ways in which the engine's operations fail.

use vstd::prelude::*;

verus! {

/// Why an operation of the engine failed.
#[derive(Clone, Copy, Debug, PartialEq, Eq, Structural)]
pub enum Error {
    /// Two trees hold the same path with different content and the same
    /// modification time, so neither can be told to be the newer one.
    MergeConflict,
    /// A path that should lead to a file does not end in a name.
    NoFilename,
}

impl Error {
    /// The text of [`Error::message`].
    pub open spec fn spec_message(self) -> Seq<char> {
        match self {
            Error::MergeConflict =>
                "Found merge conflict - same key, different hash, same modified time"@,
            Error::NoFilename => "No filename"@,
        }
    }

    /// The failure in words.
    pub fn message(&self) -> (text: String)
        ensures
            text@ == self.spec_message(),
    {
        match self {
            Error::MergeConflict =>
                "Found merge conflict - same key, different hash, same modified time".to_owned(),
            Error::NoFilename => "No filename".to_owned(),
        }
    }
}

} // verus!
