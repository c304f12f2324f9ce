//! The operations that a type with a schema offers: encoding a value to
//! bytes, decoding a value from bytes, and the ordinal of a variant.

use vstd::prelude::*;
use crate::errors::{DecodeError, EncodeError};

verus! {

/// A value that can be encoded against the schema of its type.
pub trait Encode {
    /// The bytes that stand for the value.
    fn encode(&self) -> Result<Vec<u8>, EncodeError>;
}

/// A type whose values can be decoded against its schema.
pub trait Decode: Sized {
    /// The value that `bytes` stand for.
    fn decode(bytes: &[u8]) -> Result<Self, DecodeError>;
}

/// A variant of an enumeration that knows its ordinal.
pub trait AsU64 {
    /// The ordinal of the variant, counted from zero in the order in which
    /// the schema declares the variants.
    fn as_u64(&self) -> Result<u64, EncodeError>;
}

} // verus!
