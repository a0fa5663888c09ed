//! The ways in which coding and decoding fail.
use vstd::prelude::*;

verus! {

/// Why a text could not be encoded or a container could not be decoded.
#[derive(Debug, Clone, Copy, PartialEq, Eq, Structural)]
pub enum Error {
    /// The bytes of a container's table cannot be read as a code table.
    SerializationFailure,
    /// A symbol of the text has no code in the table.
    MissingCode(char),
    /// The bits of the payload do not end where a code ends.
    UndecodableSequence,
    /// The container is too short for its length prefix or for the table
    /// that the prefix announces, or nothing stands behind the table where
    /// the byte that counts the bits of the last payload byte should be.
    /// Decoding also refuses a count of more than 8 bits with this error;
    /// reading returns the byte as it is.
    MalformedContainer,
}

} // verus!
