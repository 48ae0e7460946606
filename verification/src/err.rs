//! Typed, recoverable error values of the codec layers.
use vstd::prelude::*;

verus! {

/// Marker returned when a decoded discriminant is not in the declared set of
/// an enumeration.
#[derive(Clone, Copy, Debug, PartialEq, Eq, Structural)]
pub struct InvalidEnumId;

/// Failure of a field or packet decode.
#[derive(Clone, Copy, Debug, PartialEq, Eq, Structural)]
#[non_exhaustive]
pub enum ReadError {
    /// The input ended while more bytes were owed (underrun).
    IoError,
    /// A decoded discriminant is not in the declared set.
    InvalidEnumId,
    /// A length-prefixed string did not hold valid UTF-8.
    Utf8Error,
    /// An owned string could not be built from the decoded bytes.
    FromUtf8Error,
    /// A decoded identifier string is not a well-formed UUID.
    UuidError,
    /// The protocol version and packet id do not go together.
    InvalidProtocolVersionIdCombination,
    /// A variable-length integer still signalled continuation after the
    /// greatest byte count its width allows.
    MalformedVarInt,
}

/// Failure of a field or packet encode.
#[derive(Clone, Copy, Debug, PartialEq, Eq, Structural)]
pub enum WriteError {
    /// The sink refused the bytes.
    IoError,
    /// A string or sequence is longer than its length prefix can carry.
    StringTooLong,
}

} // verus!
