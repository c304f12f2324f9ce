//! The wire layout: which bits and which tail bytes stand for a value of a
//! field, and which value a byte sequence stands for.
//!
//! The bit stream holds, in schema order, the presence bits, the numbers and
//! the length prefixes. The bytes of byte-sequence fields stand behind the
//! padded bit stream, the bytes of the field met last coming first.

use vstd::prelude::*;
use vstd::arithmetic::power2::pow2;
use crate::bit::{bit_length, bits_of, bits_of_bytes, bits_value, pack_bits};
use crate::field::{FieldModel, KindModel, WIDTH_TAG_BITS};
use crate::datum::DatumModel;

verus! {

/// What a value contributes to the output: its part of the bit stream and its
/// part of the tail region, the latter in the order it has in the output.
pub struct Encoding {
    pub bits: Seq<bool>,
    pub tail: Seq<u8>,
}

/// The ways in which encoding fails.
pub enum EncodeFailure {
    /// A number outside its bounds, a byte sequence that is too long, or a
    /// number or length that does not fit in its bits.
    OutOfBounds,
    /// A value of a kind that its field does not hold.
    NotSupported,
}

/// The ways in which decoding fails.
pub enum DecodeFailure {
    /// A number outside its bounds or an ordinal that names no variant.
    OutOfBounds,
    /// Fewer bytes in front of the tail cursor than a byte sequence needs.
    NotEnoughBytes,
    /// Fewer bits left in the input than a read needs.
    NotEnoughBits,
}

/// A decoded value with the places where decoding stopped: the position in
/// the bit stream and the tail cursor.
pub struct Decoded {
    pub value: DatumModel,
    pub position: nat,
    pub cursor: nat,
}

/// Several decoded values with the places where decoding stopped.
pub struct DecodedList {
    pub values: Seq<DatumModel>,
    pub position: nat,
    pub cursor: nat,
}

/// The greatest number that stands behind a width tag: one of at most 31 bits.
pub open spec fn fits_width_tag(number: int) -> bool {
    0 <= number < 0x8000_0000
}

/// The low `count` bits of `number`, least significant first.
pub open spec fn number_bits(number: nat, count: nat) -> Seq<bool> {
    bits_of(number as u64, count)
}

/// An encoding that holds bits and no tail bytes.
pub open spec fn only_bits(bits: Seq<bool>) -> Encoding {
    Encoding { bits, tail: Seq::empty() }
}

/// Two encodings one after the other: the bits in order, the tail bytes of
/// the second in front of those of the first.
pub open spec fn join(first: Encoding, second: Encoding) -> Encoding {
    Encoding { bits: first.bits + second.bits, tail: second.tail + first.tail }
}

/// The encoding of `value` as the field `field`: a presence bit where the
/// field may be absent, then the payload where the value is present.
pub open spec fn field_encoding(field: FieldModel, value: DatumModel) -> Result<
    Encoding,
    EncodeFailure,
>
    decreases field, 2nat,
{
    if field.nullable {
        if value is Null {
            Ok(only_bits(seq![false]))
        } else {
            match payload_encoding(field, value) {
                Ok(payload) => Ok(join(only_bits(seq![true]), payload)),
                Err(failure) => Err(failure),
            }
        }
    } else {
        payload_encoding(field, value)
    }
}

/// The encoding of a present value, by the kind of the field.
pub open spec fn payload_encoding(field: FieldModel, value: DatumModel) -> Result<
    Encoding,
    EncodeFailure,
>
    decreases field, 1nat,
{
    let width = field.payload_width();
    match (field.kind, value) {
        (KindModel::Int { min: Some(min), max: Some(max) }, DatumModel::Int(number)) => {
            if min <= number <= max {
                Ok(only_bits(number_bits((number - min) as nat, width)))
            } else {
                Err(EncodeFailure::OutOfBounds)
            }
        },
        (KindModel::Int { .. }, DatumModel::Int(number)) => {
            if fits_width_tag(number) {
                let digits = bit_length(number as nat);
                Ok(
                    only_bits(
                        number_bits(digits, WIDTH_TAG_BITS as nat) + number_bits(
                            number as nat,
                            digits,
                        ),
                    ),
                )
            } else {
                Err(EncodeFailure::OutOfBounds)
            }
        },
        (KindModel::Boolean, DatumModel::Bool(truth)) => Ok(only_bits(seq![truth])),
        (KindModel::Enum { variants }, DatumModel::Enum(ordinal)) => {
            if ordinal < variants {
                Ok(only_bits(number_bits(ordinal, width)))
            } else {
                Err(EncodeFailure::OutOfBounds)
            }
        },
        (KindModel::Bytes { max_length }, DatumModel::Bytes(bytes)) => {
            if (max_length matches Some(longest) && bytes.len() > longest) || bytes.len() >= pow2(
                width,
            ) {
                Err(EncodeFailure::OutOfBounds)
            } else {
                Ok(Encoding { bits: number_bits(bytes.len(), width), tail: bytes })
            }
        },
        (KindModel::Record { fields }, DatumModel::Record(values)) => {
            if values.len() == fields.len() {
                fields_encoding(fields, values)
            } else {
                Err(EncodeFailure::NotSupported)
            }
        },
        (KindModel::Array { items, .. }, DatumModel::Array(values)) => {
            if values.len() < pow2(width) {
                match items_encoding(*items, values) {
                    Ok(rest) => Ok(join(only_bits(number_bits(values.len(), width)), rest)),
                    Err(failure) => Err(failure),
                }
            } else {
                Err(EncodeFailure::OutOfBounds)
            }
        },
        _ => Err(EncodeFailure::NotSupported),
    }
}

/// The encoding of the values of the fields of a record, field by field in
/// declaration order; the first failure is the failure of the whole.
pub open spec fn fields_encoding(fields: Seq<FieldModel>, values: Seq<DatumModel>) -> Result<
    Encoding,
    EncodeFailure,
>
    recommends
        fields.len() == values.len(),
    decreases fields, 0nat,
{
    if fields.len() == 0 {
        Ok(only_bits(Seq::empty()))
    } else {
        match fields_encoding(fields.drop_last(), values.drop_last()) {
            Ok(front) => match field_encoding(fields.last(), values.last()) {
                Ok(back) => Ok(join(front, back)),
                Err(failure) => Err(failure),
            },
            Err(failure) => Err(failure),
        }
    }
}

/// The encoding of the items of an array, one after the other; the first
/// failure is the failure of the whole.
pub open spec fn items_encoding(item: FieldModel, values: Seq<DatumModel>) -> Result<
    Encoding,
    EncodeFailure,
>
    decreases item, values.len() + 3,
{
    if values.len() == 0 {
        Ok(only_bits(Seq::empty()))
    } else {
        match items_encoding(item, values.drop_last()) {
            Ok(front) => match field_encoding(item, values.last()) {
                Ok(back) => Ok(join(front, back)),
                Err(failure) => Err(failure),
            },
            Err(failure) => Err(failure),
        }
    }
}

/// The bytes that an encoding stands for: the bit stream padded to a whole
/// byte, then the tail region.
pub open spec fn wire_bytes(encoding: Encoding) -> Seq<u8> {
    pack_bits(encoding.bits) + encoding.tail
}

/// The number that the `count` bits of `input` from `position` on hold, where
/// the input has that many.
pub open spec fn read_number(input: Seq<u8>, position: nat, count: nat) -> Option<nat> {
    if position + count <= 8 * input.len() {
        Some(bits_value(bits_of_bytes(input).subrange(position as int, (position + count) as int)))
    } else {
        None
    }
}

/// The value of the field `field` that `input` holds from the bit `position`
/// on, its bytes ending at the tail cursor `cursor`.
pub open spec fn field_decoding(
    field: FieldModel,
    input: Seq<u8>,
    position: nat,
    cursor: nat,
) -> Result<Decoded, DecodeFailure>
    decreases field, 2nat,
{
    if field.nullable {
        match read_number(input, position, 1) {
            None => Err(DecodeFailure::NotEnoughBits),
            Some(present) => if present == 0 {
                Ok(Decoded { value: DatumModel::Null, position: position + 1, cursor })
            } else {
                payload_decoding(field, input, position + 1, cursor)
            },
        }
    } else {
        payload_decoding(field, input, position, cursor)
    }
}

/// The present value of the field `field` that `input` holds from the bit
/// `position` on, by the kind of the field.
pub open spec fn payload_decoding(
    field: FieldModel,
    input: Seq<u8>,
    position: nat,
    cursor: nat,
) -> Result<Decoded, DecodeFailure>
    decreases field, 1nat,
{
    let width = field.payload_width();
    match field.kind {
        KindModel::Int { min: Some(min), max: Some(max) } => match read_number(
            input,
            position,
            width,
        ) {
            None => Err(DecodeFailure::NotEnoughBits),
            Some(offset) => if min + offset <= max {
                Ok(
                    Decoded {
                        value: DatumModel::Int(min + offset),
                        position: position + width,
                        cursor,
                    },
                )
            } else {
                Err(DecodeFailure::OutOfBounds)
            },
        },
        KindModel::Int { .. } => match read_number(input, position, width) {
            None => Err(DecodeFailure::NotEnoughBits),
            Some(digits) => match read_number(input, position + width, digits) {
                None => Err(DecodeFailure::NotEnoughBits),
                Some(number) => Ok(
                    Decoded {
                        value: DatumModel::Int(number as int),
                        position: position + width + digits,
                        cursor,
                    },
                ),
            },
        },
        KindModel::Boolean => match read_number(input, position, 1) {
            None => Err(DecodeFailure::NotEnoughBits),
            Some(bit) => Ok(
                Decoded { value: DatumModel::Bool(bit == 1), position: position + 1, cursor },
            ),
        },
        KindModel::Enum { variants } => match read_number(input, position, width) {
            None => Err(DecodeFailure::NotEnoughBits),
            Some(ordinal) => if ordinal < variants {
                Ok(
                    Decoded {
                        value: DatumModel::Enum(ordinal),
                        position: position + width,
                        cursor,
                    },
                )
            } else {
                Err(DecodeFailure::OutOfBounds)
            },
        },
        KindModel::Bytes { .. } => match read_number(input, position, width) {
            None => Err(DecodeFailure::NotEnoughBits),
            Some(length) => if length <= cursor {
                Ok(
                    Decoded {
                        value: DatumModel::Bytes(input.subrange(cursor - length, cursor as int)),
                        position: position + width,
                        cursor: (cursor - length) as nat,
                    },
                )
            } else {
                Err(DecodeFailure::NotEnoughBytes)
            },
        },
        KindModel::Record { fields } => match fields_decoding(fields, input, position, cursor) {
            Ok(list) => Ok(
                Decoded {
                    value: DatumModel::Record(list.values),
                    position: list.position,
                    cursor: list.cursor,
                },
            ),
            Err(failure) => Err(failure),
        },
        KindModel::Array { items, .. } => match read_number(input, position, width) {
            None => Err(DecodeFailure::NotEnoughBits),
            Some(length) => match items_decoding(*items, input, position + width, cursor, length) {
                Ok(list) => Ok(
                    Decoded {
                        value: DatumModel::Array(list.values),
                        position: list.position,
                        cursor: list.cursor,
                    },
                ),
                Err(failure) => Err(failure),
            },
        },
    }
}

/// The values of the fields `fields`, decoded one after the other; the first
/// failure is the failure of the whole.
pub open spec fn fields_decoding(
    fields: Seq<FieldModel>,
    input: Seq<u8>,
    position: nat,
    cursor: nat,
) -> Result<DecodedList, DecodeFailure>
    decreases fields, 0nat,
{
    if fields.len() == 0 {
        Ok(DecodedList { values: Seq::empty(), position, cursor })
    } else {
        match fields_decoding(fields.drop_last(), input, position, cursor) {
            Ok(front) => match field_decoding(fields.last(), input, front.position, front.cursor) {
                Ok(back) => Ok(
                    DecodedList {
                        values: front.values.push(back.value),
                        position: back.position,
                        cursor: back.cursor,
                    },
                ),
                Err(failure) => Err(failure),
            },
            Err(failure) => Err(failure),
        }
    }
}

/// `count` items of the field `item`, decoded one after the other; the first
/// failure is the failure of the whole.
pub open spec fn items_decoding(
    item: FieldModel,
    input: Seq<u8>,
    position: nat,
    cursor: nat,
    count: nat,
) -> Result<DecodedList, DecodeFailure>
    decreases item, count + 3,
{
    if count == 0 {
        Ok(DecodedList { values: Seq::empty(), position, cursor })
    } else {
        match items_decoding(item, input, position, cursor, (count - 1) as nat) {
            Ok(front) => match field_decoding(item, input, front.position, front.cursor) {
                Ok(back) => Ok(
                    DecodedList {
                        values: front.values.push(back.value),
                        position: back.position,
                        cursor: back.cursor,
                    },
                ),
                Err(failure) => Err(failure),
            },
            Err(failure) => Err(failure),
        }
    }
}

} // verus!
