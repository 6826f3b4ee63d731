//! The ways in which decoding or encoding can fail.

use vstd::prelude::*;

verus! {

/// Why a value could not be decoded or encoded.
///
/// `UnexpectedEof` is the one transport failure: the source ended in the
/// middle of a value. Every other variant is a protocol error, after which the
/// byte stream cannot be trusted any more.
#[derive(Debug, Clone, Copy, PartialEq, Eq, Structural)]
pub enum CodecError {
    /// The source was exhausted before the value was complete.
    UnexpectedEof,
    /// A packet began with a tag byte that names no packet type.
    UnexpectedPacketType(u8),
    /// A byte length or element count was negative.
    NegativeLength(i32),
    /// The payload of a string packet was not valid UTF-8.
    InvalidUtf8,
    /// A byte length or element count does not fit the 31 bits that the wire
    /// format has for it.
    LengthOverflow,
    /// A typed value was asked of a packet that is neither an object nor
    /// undefined.
    ExpectedObject,
    /// The JSON text of an object packet did not parse as the type asked for.
    InvalidJson,
    /// The message header was not an array packet.
    ExpectedHeaderArray,
    /// The message header did not begin with an integer message type.
    ExpectedPacketType,
    /// The message header had no integer request id at position 1.
    ExpectedRequestId,
    /// The message header had no string channel name at position 2.
    ExpectedChannelName,
    /// The message header had no string request name at position 3.
    ExpectedRequestName,
    /// The message type is none of the nine known ones.
    UnknownPacketType(i32),
}

impl CodecError {
    /// Whether this failure is a protocol error rather than the end of the
    /// source.
    pub open spec fn is_protocol_error(self) -> bool {
        self != CodecError::UnexpectedEof
    }

    /// Tells a protocol error from the end of the source.
    pub fn is_invalid_data(&self) -> (b: bool)
        ensures
            b == self.is_protocol_error(),
    {
        match self {
            CodecError::UnexpectedEof => false,
            _ => true,
        }
    }
}

} // verus!
