//! The errors of encoding and decoding.

use vstd::prelude::*;
use vstd::std_specs::convert::FromSpecImpl;
use vstd::string::StringExecFns;
use crate::bit::{ReadError, WriteError};

verus! {

/// Why a value could not be encoded.
#[derive(Debug)]
pub enum EncodeError {
    /// A value lies outside the range its field declares, a byte sequence is
    /// longer than its field allows, or a number does not fit in the bits
    /// reserved for it.
    OutOfBounds(String),
    /// The value is of a kind that its field cannot hold.
    NotSupported(String),
}

/// Why a byte sequence could not be decoded.
#[derive(Debug)]
pub enum DecodeError {
    /// A number read lies outside the range its field declares, or an
    /// ordinal names no variant.
    OutOfBounds(String),
    /// The tail region is too short for a byte sequence.
    NotEnoughBytes(String),
    /// The bit stream ended before the value was complete.
    NotEnoughBits(String),
}

impl From<WriteError> for EncodeError {
    fn from(error: WriteError) -> (r: Self) {
        match error {
            WriteError::ValueTooLarge(message) => EncodeError::OutOfBounds(message),
        }
    }
}

impl FromSpecImpl<WriteError> for EncodeError {
    open spec fn obeys_from_spec() -> bool {
        true
    }

    open spec fn from_spec(error: WriteError) -> Self {
        match error {
            WriteError::ValueTooLarge(message) => EncodeError::OutOfBounds(message),
        }
    }
}

impl From<ReadError> for DecodeError {
    fn from(error: ReadError) -> (r: Self) {
        match error {
            ReadError::NotEnoughBits(message) => DecodeError::NotEnoughBits(message),
            ReadError::InvalidBitCount(message) => DecodeError::OutOfBounds(message),
        }
    }
}

impl FromSpecImpl<ReadError> for DecodeError {
    open spec fn obeys_from_spec() -> bool {
        true
    }

    open spec fn from_spec(error: ReadError) -> Self {
        match error {
            ReadError::NotEnoughBits(message) => DecodeError::NotEnoughBits(message),
            ReadError::InvalidBitCount(message) => DecodeError::OutOfBounds(message),
        }
    }
}

impl From<core::num::TryFromIntError> for DecodeError {
    fn from(error: core::num::TryFromIntError) -> (r: Self)
        ensures
            r is OutOfBounds,
    {
        DecodeError::OutOfBounds(error.to_string())
    }
}

impl FromSpecImpl<core::num::TryFromIntError> for DecodeError {
    open spec fn obeys_from_spec() -> bool {
        false
    }

    open spec fn from_spec(error: core::num::TryFromIntError) -> Self {
        arbitrary()
    }
}

impl From<core::convert::Infallible> for DecodeError {
    fn from(error: core::convert::Infallible) -> (r: Self)
        ensures
            r is OutOfBounds,
    {
        DecodeError::OutOfBounds("Infallible error occurred".to_owned())
    }
}

impl FromSpecImpl<core::convert::Infallible> for DecodeError {
    open spec fn obeys_from_spec() -> bool {
        false
    }

    open spec fn from_spec(error: core::convert::Infallible) -> Self {
        arbitrary()
    }
}

impl EncodeError {
    /// The error as a sentence.
    pub fn describe(&self) -> (text: String)
        ensures
            text@ == match self {
                EncodeError::OutOfBounds(message) => "Encoding error: Out of bounds - "@ + message@,
                EncodeError::NotSupported(message) => "Encoding error: Not supported - "@
                    + message@,
            },
    {
        match self {
            EncodeError::OutOfBounds(message) => String::from_str(
                "Encoding error: Out of bounds - ",
            ).concat(message.as_str()),
            EncodeError::NotSupported(message) => String::from_str(
                "Encoding error: Not supported - ",
            ).concat(message.as_str()),
        }
    }
}

impl DecodeError {
    /// The error as a sentence.
    pub fn describe(&self) -> (text: String)
        ensures
            text@ == match self {
                DecodeError::OutOfBounds(message) => "Decoding error: Out of bounds - "@ + message@,
                DecodeError::NotEnoughBytes(message) => "Decoding error: Not enough bytes - "@
                    + message@,
                DecodeError::NotEnoughBits(message) => "Decoding error: Not enough bits - "@
                    + message@,
            },
    {
        match self {
            DecodeError::OutOfBounds(message) => String::from_str(
                "Decoding error: Out of bounds - ",
            ).concat(message.as_str()),
            DecodeError::NotEnoughBytes(message) => String::from_str(
                "Decoding error: Not enough bytes - ",
            ).concat(message.as_str()),
            DecodeError::NotEnoughBits(message) => String::from_str(
                "Decoding error: Not enough bits - ",
            ).concat(message.as_str()),
        }
    }
}

} // verus!
