//! Schema-driven, bit-packed serialization.
//!
//! A schema describes a record or an enumeration. Every field of a record
//! occupies a number of bits derived from the bounds the schema declares, and
//! a value is written, field by field, into a padded bit stream followed by a
//! tail region holding the raw byte payloads.

use vstd::prelude::*;

pub mod bit;
pub mod errors;
pub mod field;
pub mod datum;
pub mod wire;
pub mod laws;
pub mod encoder;
pub mod decoder;
pub mod json;
pub mod schema;
pub mod traits;
pub mod utils;
pub mod text;
pub mod generate;

pub use bit::{BitReader, BitWriter};
pub use errors::{DecodeError, EncodeError};

verus! {

/// The bytes that stand for `value`: what the encode routine of its type
/// gives for it.
pub fn encode<T: traits::Encode>(value: &T) -> (r: Result<Vec<u8>, EncodeError>)
    ensures
        call_ensures(T::encode, (value,), r),
{
    value.encode()
}

/// The value of type `T` that `buffer` stands for: what the decode routine of
/// the type gives for it.
pub fn decode<T: traits::Decode>(buffer: &[u8]) -> (r: Result<T, DecodeError>)
    ensures
        call_ensures(T::decode, (buffer,), r),
{
    T::decode(buffer)
}

} // verus!
