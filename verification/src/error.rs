//! The ways in which an operation of the library can fail.

use vstd::prelude::*;

verus! {

/// Why an operation stopped. No operation is retried: the first failure is
/// handed to the caller.
#[derive(Clone, Copy, Debug, PartialEq, Eq, Structural)]
pub enum Error {
    /// Reading, writing or compressing data failed underneath the library.
    IOFailure,
    /// The store holds no object under the requested hash.
    NotFound,
    /// Stored bytes do not inflate, or inflated bytes lack the NUL separator.
    CorruptObject,
    /// Commit content does not have the expected line structure, or a chain
    /// of parents is longer than the walk was allowed to be.
    MalformedMetadata,
    /// A staged hash is not a string of hex digit pairs.
    InvalidHash,
}

impl Error {
    /// The words for the failure.
    pub open spec fn text(self) -> Seq<char> {
        match self {
            Error::IOFailure => "input or output failed"@,
            Error::NotFound => "object not found"@,
            Error::CorruptObject => "corrupt object"@,
            Error::MalformedMetadata => "malformed metadata"@,
            Error::InvalidHash => "invalid hash"@,
        }
    }

    /// The words for the failure, for a message to the user.
    pub fn message(&self) -> (words: String)
        ensures
            words@ == self.text(),
    {
        match self {
            Error::IOFailure => "input or output failed".to_owned(),
            Error::NotFound => "object not found".to_owned(),
            Error::CorruptObject => "corrupt object".to_owned(),
            Error::MalformedMetadata => "malformed metadata".to_owned(),
            Error::InvalidHash => "invalid hash".to_owned(),
        }
    }
}

} // verus!
