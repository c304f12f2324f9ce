//! Decoding of values against a field tree.

use vstd::prelude::*;
use vstd::arithmetic::power2::{lemma2_to64, lemma_pow2_strictly_increases, pow2};
use vstd::slice::{slice_subrange, slice_to_vec};
use crate::bit::{bits_of_bytes, lemma_bits_value_bound, BitReader};
use crate::errors::DecodeError;
use crate::text::about;
use crate::field::{
    field_models,
    lemma_field_models,
    Field,
    FieldModel,
    FieldTrait,
    WIDTH_TAG_BITS,
};
use crate::laws::lemma_payload_width_bound;
use crate::datum::{lemma_datum_models_push, datum_models, Datum};
use crate::wire::{
    field_decoding,
    fields_decoding,
    items_decoding,
    payload_decoding,
    read_number,
    DecodeFailure,
    Decoded,
    DecodedList,
};

verus! {

/// Whether the error `error` is of the kind `failure`.
pub open spec fn is_failure(error: DecodeError, failure: DecodeFailure) -> bool {
    match failure {
        DecodeFailure::OutOfBounds => error is OutOfBounds,
        DecodeFailure::NotEnoughBytes => error is NotEnoughBytes,
        DecodeFailure::NotEnoughBits => error is NotEnoughBits,
    }
}

/// Whether the outcome `result` of reading a value is the one that the wire
/// layout `expected` asks for: the value and the places where reading stopped
/// on success, the kind of error on failure.
pub open spec fn read_back(
    expected: Result<Decoded, DecodeFailure>,
    result: Result<Datum, DecodeError>,
    position_after: nat,
    cursor_after: nat,
) -> bool {
    match expected {
        Ok(decoded) => {
            &&& result matches Ok(value)
            &&& value@ == decoded.value
            &&& position_after == decoded.position
            &&& cursor_after == decoded.cursor
        },
        Err(failure) => result matches Err(error) && is_failure(error, failure),
    }
}

/// Whether the outcome `result` of reading several values is the one that the
/// wire layout `expected` asks for.
pub open spec fn read_back_list(
    expected: Result<DecodedList, DecodeFailure>,
    result: Result<Vec<Datum>, DecodeError>,
    position_after: nat,
    cursor_after: nat,
) -> bool {
    match expected {
        Ok(decoded) => {
            &&& result matches Ok(values)
            &&& datum_models(values@) == decoded.values
            &&& position_after == decoded.position
            &&& cursor_after == decoded.cursor
        },
        Err(failure) => result matches Err(error) && is_failure(error, failure),
    }
}

/// A number read from `count` bits is below `2^count`.
pub proof fn lemma_read_number_bound(input: Seq<u8>, position: nat, count: nat)
    requires
        read_number(input, position, count) is Some,
    ensures
        read_number(input, position, count)->Some_0 < pow2(count),
{
    lemma_bits_value_bound(
        bits_of_bytes(input).subrange(position as int, (position + count) as int),
    );
}

/// The decoding of one more field of a record.
pub proof fn lemma_fields_decoding_step(
    fields: Seq<FieldModel>,
    input: Seq<u8>,
    position: nat,
    cursor: nat,
    n: int,
)
    requires
        0 <= n < fields.len(),
    ensures
        fields_decoding(fields.take(n + 1), input, position, cursor) == match fields_decoding(
            fields.take(n),
            input,
            position,
            cursor,
        ) {
            Ok(front) => match field_decoding(fields[n], input, front.position, front.cursor) {
                Ok(back) => Ok(
                    DecodedList {
                        values: front.values.push(back.value),
                        position: back.position,
                        cursor: back.cursor,
                    },
                ),
                Err(failure) => Err(failure),
            },
            Err(failure) => Err(failure),
        },
{
    assert(fields.take(n + 1).drop_last() =~= fields.take(n));
}

/// A failure among the first fields of a record is the failure of the record.
pub proof fn lemma_fields_decoding_fails(
    fields: Seq<FieldModel>,
    input: Seq<u8>,
    position: nat,
    cursor: nat,
    n: int,
)
    requires
        0 <= n <= fields.len(),
        fields_decoding(fields.take(n), input, position, cursor) is Err,
    ensures
        fields_decoding(fields, input, position, cursor) == fields_decoding(
            fields.take(n),
            input,
            position,
            cursor,
        ),
    decreases fields.len() - n,
{
    if n == fields.len() {
        assert(fields.take(n) =~= fields);
    } else {
        assert(fields.drop_last().take(n) =~= fields.take(n));
        lemma_fields_decoding_fails(fields.drop_last(), input, position, cursor, n);
    }
}

/// A failure among the first items of an array is the failure of the array.
pub proof fn lemma_items_decoding_fails(
    item: FieldModel,
    input: Seq<u8>,
    position: nat,
    cursor: nat,
    n: nat,
    count: nat,
)
    requires
        n <= count,
        items_decoding(item, input, position, cursor, n) is Err,
    ensures
        items_decoding(item, input, position, cursor, count) == items_decoding(
            item,
            input,
            position,
            cursor,
            n,
        ),
    decreases count - n,
{
    if n < count {
        lemma_items_decoding_fails(item, input, position, cursor, n, (count - 1) as nat);
    }
}

/// Reads a number of `width` bits.
pub fn take_number(reader: &mut BitReader, width: u8) -> (r: Result<u64, DecodeError>)
    requires
        width <= 64,
    ensures
        final(reader).input() == old(reader).input(),
        match read_number(old(reader).input(), old(reader).position(), width as nat) {
            Some(number) => {
                &&& r matches Ok(value)
                &&& value == number
                &&& final(reader).position() == old(reader).position() + width
            },
            None => r matches Err(DecodeError::NotEnoughBits(_)),
        },
{
    match reader.read(width) {
        Ok(value) => Ok(value),
        Err(error) => Err(DecodeError::from(error)),
    }
}

/// Reads a number written as its distance from `min` in `width` bits. A
/// number above `max` is refused.
pub fn read_bounded_int(reader: &mut BitReader, min: i32, max: i32, width: u8, name: &str) -> (r:
    Result<i64, DecodeError>)
    requires
        width <= 32,
    ensures
        final(reader).input() == old(reader).input(),
        match read_number(old(reader).input(), old(reader).position(), width as nat) {
            Some(offset) => if min + offset <= max {
                &&& r matches Ok(number)
                &&& number == min + offset
                &&& final(reader).position() == old(reader).position() + width
            } else {
                r matches Err(DecodeError::OutOfBounds(_))
            },
            None => r matches Err(DecodeError::NotEnoughBits(_)),
        },
{
    proof {
        lemma2_to64();
        if read_number(reader.input(), reader.position(), width as nat) is Some {
            lemma_read_number_bound(reader.input(), reader.position(), width as nat);
            if width < 32 {
                lemma_pow2_strictly_increases(width as nat, 32);
            }
        }
    }
    let offset: u64 = match take_number(reader, width) {
        Ok(offset) => offset,
        Err(error) => {
            return Err(error);
        },
    };
    let number: i64 = min as i64 + offset as i64;
    if number > max as i64 {
        return Err(DecodeError::OutOfBounds(about("Value is out of bounds", name)));
    }
    Ok(number)
}

/// Reads a number written behind a tag of five bits that holds the count of
/// its binary digits.
pub fn read_unbounded_int(reader: &mut BitReader) -> (r: Result<i64, DecodeError>)
    ensures
        final(reader).input() == old(reader).input(),
        match read_number(old(reader).input(), old(reader).position(), WIDTH_TAG_BITS as nat) {
            Some(digits) => match read_number(
                old(reader).input(),
                old(reader).position() + WIDTH_TAG_BITS as nat,
                digits,
            ) {
                Some(number) => {
                    &&& r matches Ok(value)
                    &&& value == number
                    &&& final(reader).position() == old(reader).position() + WIDTH_TAG_BITS
                        + digits
                },
                None => r matches Err(DecodeError::NotEnoughBits(_)),
            },
            None => r matches Err(DecodeError::NotEnoughBits(_)),
        },
{
    proof {
        lemma2_to64();
        if read_number(reader.input(), reader.position(), WIDTH_TAG_BITS as nat) is Some {
            lemma_read_number_bound(reader.input(), reader.position(), WIDTH_TAG_BITS as nat);
        }
    }
    let digits: u64 = match take_number(reader, WIDTH_TAG_BITS) {
        Ok(digits) => digits,
        Err(error) => {
            return Err(error);
        },
    };
    proof {
        if read_number(reader.input(), reader.position(), digits as nat) is Some {
            lemma_read_number_bound(reader.input(), reader.position(), digits as nat);
            if digits < 31 {
                lemma_pow2_strictly_increases(digits as nat, 31);
            }
        }
    }
    match take_number(reader, digits as u8) {
        Ok(number) => Ok(number as i64),
        Err(error) => Err(error),
    }
}

/// Reads a truth value from one bit.
pub fn read_bool(reader: &mut BitReader) -> (r: Result<bool, DecodeError>)
    ensures
        final(reader).input() == old(reader).input(),
        match read_number(old(reader).input(), old(reader).position(), 1) {
            Some(bit) => {
                &&& r matches Ok(truth)
                &&& truth == (bit == 1)
                &&& final(reader).position() == old(reader).position() + 1
            },
            None => r matches Err(DecodeError::NotEnoughBits(_)),
        },
{
    match take_number(reader, 1) {
        Ok(bit) => Ok(bit == 1),
        Err(error) => Err(error),
    }
}

/// Reads the ordinal of a variant from `width` bits. An ordinal that names
/// none of the `variants` variants is refused.
pub fn read_ordinal(reader: &mut BitReader, variants: u8, width: u8, name: &str) -> (r: Result<
    u64,
    DecodeError,
>)
    requires
        width <= 64,
    ensures
        final(reader).input() == old(reader).input(),
        match read_number(old(reader).input(), old(reader).position(), width as nat) {
            Some(ordinal) => if ordinal < variants {
                &&& r matches Ok(value)
                &&& value == ordinal
                &&& final(reader).position() == old(reader).position() + width
            } else {
                r matches Err(DecodeError::OutOfBounds(_))
            },
            None => r matches Err(DecodeError::NotEnoughBits(_)),
        },
{
    let ordinal: u64 = match take_number(reader, width) {
        Ok(ordinal) => ordinal,
        Err(error) => {
            return Err(error);
        },
    };
    if ordinal >= variants as u64 {
        return Err(DecodeError::OutOfBounds(about("Ordinal names no variant", name)));
    }
    Ok(ordinal)
}

/// Reads the length of a byte sequence from `width` bits and takes that many
/// bytes of the input in front of the tail cursor, which moves to their
/// first byte. A length above the cursor is refused.
pub fn read_bytes(reader: &mut BitReader, cursor: &mut usize, width: u8, name: &str) -> (r: Result<
    Vec<u8>,
    DecodeError,
>)
    requires
        width <= 32,
        *old(cursor) <= old(reader).input().len(),
    ensures
        final(reader).input() == old(reader).input(),
        match read_number(old(reader).input(), old(reader).position(), width as nat) {
            Some(length) => if length <= *old(cursor) {
                &&& r matches Ok(bytes)
                &&& bytes@ == old(reader).input().subrange(
                    *old(cursor) - length,
                    *old(cursor) as int,
                )
                &&& final(reader).position() == old(reader).position() + width
                &&& *final(cursor) == *old(cursor) - length
            } else {
                r matches Err(DecodeError::NotEnoughBytes(_))
            },
            None => r matches Err(DecodeError::NotEnoughBits(_)),
        },
{
    let length: u64 = match take_number(reader, width) {
        Ok(length) => length,
        Err(error) => {
            return Err(error);
        },
    };
    if length > *cursor as u64 {
        return Err(DecodeError::NotEnoughBytes(about("Not enough bytes", name)));
    }
    let end: usize = *cursor;
    let start: usize = end - length as usize;
    let bytes = slice_to_vec(slice_subrange(reader.bytes(), start, end));
    *cursor = start;
    Ok(bytes)
}

/// Reads the value of the field `field`: a presence bit where the field may
/// be absent, then the payload where the value is present. Byte sequences
/// are taken from in front of the tail cursor `cursor`.
pub fn decode_field(field: &Field, reader: &mut BitReader, cursor: &mut usize) -> (r: Result<
    Datum,
    DecodeError,
>)
    requires
        field.wf(),
        *old(cursor) <= old(reader).input().len(),
    ensures
        final(reader).input() == old(reader).input(),
        r is Ok ==> *final(cursor) <= *old(cursor),
        read_back(
            field_decoding(
                field@,
                old(reader).input(),
                old(reader).position(),
                *old(cursor) as nat,
            ),
            r,
            final(reader).position(),
            *final(cursor) as nat,
        ),
    decreases field@, 2nat,
{
    if field.nullable() {
        match read_bool(reader) {
            Ok(present) => {
                if !present {
                    proof {
                        lemma_read_number_bound(old(reader).input(), old(reader).position(), 1);
                        lemma2_to64();
                    }
                    return Ok(Datum::Null);
                }
            },
            Err(error) => {
                return Err(error);
            },
        }
    }
    decode_payload(field, reader, cursor)
}

/// Reads a present value, by the kind of the field.
pub fn decode_payload(field: &Field, reader: &mut BitReader, cursor: &mut usize) -> (r: Result<
    Datum,
    DecodeError,
>)
    requires
        field.wf(),
        *old(cursor) <= old(reader).input().len(),
    ensures
        final(reader).input() == old(reader).input(),
        r is Ok ==> *final(cursor) <= *old(cursor),
        read_back(
            payload_decoding(
                field@,
                old(reader).input(),
                old(reader).position(),
                *old(cursor) as nat,
            ),
            r,
            final(reader).position(),
            *final(cursor) as nat,
        ),
    decreases field@, 1nat,
{
    let width: u8 = field.payload_bits() as u8;
    proof {
        lemma2_to64();
        field.lemma_model();
        if !(field@.kind is Record) {
            lemma_payload_width_bound(field@);
        }
    }
    match field {
        Field::Int(int_field) => {
            match (int_field.min_bound(), int_field.max_bound()) {
                (Some(min), Some(max)) => {
                    match read_bounded_int(reader, min, max, width, field.name()) {
                        Ok(number) => Ok(Datum::Int(number)),
                        Err(error) => Err(error),
                    }
                },
                _ => match read_unbounded_int(reader) {
                    Ok(number) => Ok(Datum::Int(number)),
                    Err(error) => Err(error),
                },
            }
        },
        Field::Boolean(_) => match read_bool(reader) {
            Ok(truth) => Ok(Datum::Bool(truth)),
            Err(error) => Err(error),
        },
        Field::Enum(enum_field) => {
            match read_ordinal(reader, enum_field.variant_count(), width, field.name()) {
                Ok(ordinal) => Ok(Datum::Enum(ordinal)),
                Err(error) => Err(error),
            }
        },
        Field::Bytes(_) => match read_bytes(reader, cursor, width, field.name()) {
            Ok(bytes) => Ok(Datum::Bytes(bytes)),
            Err(error) => Err(error),
        },
        Field::Record(record_field) => {
            match decode_fields(record_field.sub_fields(), reader, cursor) {
                Ok(values) => Ok(Datum::Record(values)),
                Err(error) => Err(error),
            }
        },
        Field::Array(array_field) => {
            let length: u64 = match take_number(reader, width) {
                Ok(length) => length,
                Err(error) => {
                    return Err(error);
                },
            };
            match decode_items(array_field.item_field(), reader, cursor, length) {
                Ok(items) => Ok(Datum::Array(items)),
                Err(error) => Err(error),
            }
        },
    }
}

/// Reads the values of the fields of a record, field by field in declaration
/// order, and stops at the first failure.
pub fn decode_fields(fields: &Vec<Field>, reader: &mut BitReader, cursor: &mut usize) -> (r:
    Result<Vec<Datum>, DecodeError>)
    requires
        forall|i: int| 0 <= i < fields@.len() ==> (#[trigger] fields@[i]).wf(),
        *old(cursor) <= old(reader).input().len(),
    ensures
        final(reader).input() == old(reader).input(),
        r is Ok ==> *final(cursor) <= *old(cursor),
        read_back_list(
            fields_decoding(
                field_models(fields@),
                old(reader).input(),
                old(reader).position(),
                *old(cursor) as nat,
            ),
            r,
            final(reader).position(),
            *final(cursor) as nat,
        ),
    decreases field_models(fields@), 0nat,
{
    let ghost input = reader.input();
    let ghost start = reader.position();
    let ghost end = *cursor as nat;
    let ghost models = field_models(fields@);
    let mut values: Vec<Datum> = Vec::new();
    let mut i: usize = 0;
    proof {
        lemma_field_models(fields@);
        assert(models.take(0) =~= Seq::<FieldModel>::empty());
    }
    while i < fields.len()
        invariant
            i <= fields@.len(),
            models == field_models(fields@),
            models.len() == fields@.len(),
            forall|k: int| 0 <= k < fields@.len() ==> (#[trigger] fields@[k]).wf(),
            forall|k: int| 0 <= k < fields@.len() ==> (#[trigger] models[k]) == fields@[k]@,
            reader.input() == input,
            input == old(reader).input(),
            start == old(reader).position(),
            end == *old(cursor),
            *cursor <= end <= input.len(),
            fields_decoding(models.take(i as int), input, start, end) == Ok::<
                DecodedList,
                DecodeFailure,
            >(
                DecodedList {
                    values: datum_models(values@),
                    position: reader.position(),
                    cursor: *cursor as nat,
                },
            ),
        decreases fields@.len() - i,
    {
        proof {
            lemma_fields_decoding_step(models, input, start, end, i as int);
        }
        match decode_field(&fields[i], reader, cursor) {
            Ok(value) => {
                proof {
                    lemma_datum_models_push(values@, value);
                }
                values.push(value);
            },
            Err(error) => {
                proof {
                    lemma_fields_decoding_fails(models, input, start, end, i + 1);
                }
                return Err(error);
            },
        }
        i = i + 1;
    }
    proof {
        assert(models.take(i as int) =~= models);
    }
    Ok(values)
}

/// Reads `count` items of an array one after the other and stops at the
/// first failure.
pub fn decode_items(item_field: &Field, reader: &mut BitReader, cursor: &mut usize, count: u64) -> (r:
    Result<Vec<Datum>, DecodeError>)
    requires
        item_field.wf(),
        *old(cursor) <= old(reader).input().len(),
    ensures
        final(reader).input() == old(reader).input(),
        r is Ok ==> *final(cursor) <= *old(cursor),
        read_back_list(
            items_decoding(
                item_field@,
                old(reader).input(),
                old(reader).position(),
                *old(cursor) as nat,
                count as nat,
            ),
            r,
            final(reader).position(),
            *final(cursor) as nat,
        ),
    decreases item_field@, 3nat,
{
    let ghost input = reader.input();
    let ghost start = reader.position();
    let ghost end = *cursor as nat;
    let mut items: Vec<Datum> = Vec::new();
    let mut i: u64 = 0;
    while i < count
        invariant
            i <= count,
            item_field.wf(),
            reader.input() == input,
            input == old(reader).input(),
            start == old(reader).position(),
            end == *old(cursor),
            *cursor <= end <= input.len(),
            items_decoding(item_field@, input, start, end, i as nat) == Ok::<
                DecodedList,
                DecodeFailure,
            >(
                DecodedList {
                    values: datum_models(items@),
                    position: reader.position(),
                    cursor: *cursor as nat,
                },
            ),
        decreases count - i,
    {
        match decode_field(item_field, reader, cursor) {
            Ok(value) => {
                proof {
                    lemma_datum_models_push(items@, value);
                }
                items.push(value);
            },
            Err(error) => {
                proof {
                    lemma_items_decoding_fails(
                        item_field@,
                        input,
                        start,
                        end,
                        (i + 1) as nat,
                        count as nat,
                    );
                }
                return Err(error);
            },
        }
        i = i + 1;
    }
    Ok(items)
}

} // verus!
