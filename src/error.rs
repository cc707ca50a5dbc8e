//! The failures of the two directions of the codec.
use vstd::prelude::*;

verus! {

/// Failure while encoding: the destination holds fewer bytes than needed.
#[derive(Clone, Copy, Debug, PartialEq, Eq, Structural)]
pub enum SerializeError {
    BufferOverflow,
}

/// Failure while decoding: the bytes do not form a value of the type
/// (too few bytes, an unknown discriminant or presence byte, bad UTF-8).
#[derive(Clone, Copy, Debug, PartialEq, Eq, Structural)]
pub enum DeserializeError {
    Invalid,
}

impl SerializeError {
    /// A human-readable description of the error.
    pub fn message(&self) -> (r: &'static str)
        ensures
            r@ == "Buffer overflow"@,
    {
        match self {
            SerializeError::BufferOverflow => "Buffer overflow",
        }
    }
}

impl DeserializeError {
    /// A human-readable description of the error.
    pub fn message(&self) -> (r: &'static str)
        ensures
            r@ == "Invalid payload"@,
    {
        match self {
            DeserializeError::Invalid => "Invalid payload",
        }
    }
}

} // verus!
