//! Errors shared by the modules of the crate.
use vstd::prelude::*;

verus! {

/// Why a message could not be read from or written to the wire.
#[derive(Debug, Clone, Copy, PartialEq, Eq)]
pub enum SerializationError {
    Io,
    InvalidHMAC,
    InvalidMagicNumber,
    InvalidMessageType,
    InvalidData,
}

impl SerializationError {
    /// The human-readable description of the error.
    pub fn message(&self) -> (s: &'static str)
        ensures
            s@ == spec_error_message(*self),
    {
        match self {
            SerializationError::Io => "IO error",
            SerializationError::InvalidHMAC => "Invalid HMAC signature",
            SerializationError::InvalidMagicNumber => "Invalid magic number",
            SerializationError::InvalidMessageType => "Invalid message type",
            SerializationError::InvalidData => "Invalid data",
        }
    }
}

/// The description of each error.
pub open spec fn spec_error_message(e: SerializationError) -> Seq<char> {
    match e {
        SerializationError::Io => "IO error"@,
        SerializationError::InvalidHMAC => "Invalid HMAC signature"@,
        SerializationError::InvalidMagicNumber => "Invalid magic number"@,
        SerializationError::InvalidMessageType => "Invalid message type"@,
        SerializationError::InvalidData => "Invalid data"@,
    }
}

} // verus!
