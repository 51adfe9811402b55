//! The ways in which an operation of the store can fail.

use vstd::prelude::*;

verus! {

/// Why an operation was refused.
#[derive(Clone, Copy, Debug, PartialEq, Eq, Structural)]
pub enum StoreError {
    /// A file that was to be read is not in the directory.
    Io,
    /// A segment's bytes, or a segment file's name, do not parse.
    Malformed,
    /// A key or a value is longer than a size field can say.
    InvalidArgument,
    /// No segment id is left above the current one.
    OutOfSegmentIds,
}

impl StoreError {
    /// A short description, for messages.
    pub fn message(&self) -> (text: &'static str)
        ensures
            text@ == match *self {
                StoreError::Io => "file not found"@,
                StoreError::Malformed => "malformed segment or segment file name"@,
                StoreError::InvalidArgument => "key or value longer than 4294967295 bytes"@,
                StoreError::OutOfSegmentIds => "segment ids exhausted"@,
            },
    {
        match self {
            StoreError::Io => "file not found",
            StoreError::Malformed => "malformed segment or segment file name",
            StoreError::InvalidArgument => "key or value longer than 4294967295 bytes",
            StoreError::OutOfSegmentIds => "segment ids exhausted",
        }
    }
}

} // verus!
