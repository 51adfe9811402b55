//! What a client asks of the server, and what the server answers.

use vstd::prelude::*;

verus! {

/// A request.
#[derive(Debug, PartialEq, Eq)]
pub enum Command {
    /// Asks for a sign of life.
    Ping,
    /// Stores the second byte string under the first.
    Put((Vec<u8>, Vec<u8>)),
    /// Asks for the value of a key.
    Get(Vec<u8>),
}

/// An answer.
#[derive(Clone, Debug, PartialEq, Eq)]
pub enum Response {
    /// The answer to `Ping`.
    Pong,
    /// The answer to `Get`: the value, if the key has one.
    Value(Option<Vec<u8>>),
}

} // verus!
