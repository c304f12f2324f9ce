//! Encoding of values against a field tree.

use vstd::prelude::*;
use vstd::arithmetic::power2::{lemma2_to64, pow2};
use crate::bit::{
    bit_length,
    bit_length_of,
    bits_of,
    lemma_bit_length_below,
    lemma_bit_length_covers,
    BitWriter,
};
use crate::errors::EncodeError;
use vstd::string::StringExecFns;
use crate::text::{about, decimal_text, push_decimal};
use crate::field::{
    field_models,
    lemma_field_models,
    Field,
    FieldModel,
    FieldTrait,
    WIDTH_TAG_BITS,
};
use crate::laws::lemma_payload_width_bound;
use crate::datum::{lemma_datum_models, datum_models, Datum, DatumModel};
use crate::wire::{
    field_encoding,
    fields_encoding,
    fits_width_tag,
    items_encoding,
    join,
    number_bits,
    payload_encoding,
    EncodeFailure,
    Encoding,
};

verus! {

/// The tail bytes that a list of collected byte sequences stands for: the
/// sequence collected last comes first.
pub open spec fn collected_tail(buffers: Seq<&Vec<u8>>) -> Seq<u8>
    decreases buffers.len(),
{
    if buffers.len() == 0 {
        Seq::empty()
    } else {
        buffers.last()@ + collected_tail(buffers.drop_last())
    }
}

/// Whether the outcome `result` of writing a value is the one that the wire
/// layout `expected` asks for: the bits appended to the writer and the byte
/// sequences collected on success, the kind of error on failure.
pub open spec fn written(
    expected: Result<Encoding, EncodeFailure>,
    result: Result<(), EncodeError>,
    bits_before: Seq<bool>,
    bits_after: Seq<bool>,
    buffers_before: Seq<&Vec<u8>>,
    buffers_after: Seq<&Vec<u8>>,
) -> bool {
    match expected {
        Ok(encoding) => {
            &&& result is Ok
            &&& bits_after == bits_before + encoding.bits
            &&& collected_tail(buffers_after) == encoding.tail + collected_tail(buffers_before)
        },
        Err(EncodeFailure::OutOfBounds) => result matches Err(EncodeError::OutOfBounds(_)),
        Err(EncodeFailure::NotSupported) => result matches Err(EncodeError::NotSupported(_)),
    }
}

/// The one bit of a truth value written as 0 or 1 is the truth value.
proof fn lemma_bits_of_bit(bit: bool)
    ensures
        bits_of(if bit { 1u64 } else { 0u64 }, 1) == seq![bit],
{
    assert((1u64 >> 0u64) & 1 == 1) by (bit_vector);
    assert((0u64 >> 0u64) & 1 == 0) by (bit_vector);
    assert(bits_of(if bit { 1u64 } else { 0u64 }, 1) =~= seq![bit]);
}

/// A failure among the first fields of a record is the failure of the record.
pub proof fn lemma_fields_encoding_fails(fields: Seq<FieldModel>, values: Seq<DatumModel>, n: int)
    requires
        0 <= n <= fields.len(),
        fields.len() == values.len(),
        fields_encoding(fields.take(n), values.take(n)) is Err,
    ensures
        fields_encoding(fields, values) == fields_encoding(fields.take(n), values.take(n)),
    decreases fields.len() - n,
{
    if n == fields.len() {
        assert(fields.take(n) =~= fields);
        assert(values.take(n) =~= values);
    } else {
        assert(fields.drop_last().take(n) =~= fields.take(n));
        assert(values.drop_last().take(n) =~= values.take(n));
        lemma_fields_encoding_fails(fields.drop_last(), values.drop_last(), n);
    }
}

/// The encoding of one more field of a record.
pub proof fn lemma_fields_encoding_step(fields: Seq<FieldModel>, values: Seq<DatumModel>, n: int)
    requires
        0 <= n < fields.len(),
        fields.len() == values.len(),
    ensures
        fields_encoding(fields.take(n + 1), values.take(n + 1)) == match fields_encoding(
            fields.take(n),
            values.take(n),
        ) {
            Ok(front) => match field_encoding(fields[n], values[n]) {
                Ok(back) => Ok(join(front, back)),
                Err(failure) => Err(failure),
            },
            Err(failure) => Err(failure),
        },
{
    assert(fields.take(n + 1).drop_last() =~= fields.take(n));
    assert(values.take(n + 1).drop_last() =~= values.take(n));
}

/// A failure among the first items of an array is the failure of the array.
pub proof fn lemma_items_encoding_fails(item: FieldModel, values: Seq<DatumModel>, n: int)
    requires
        0 <= n <= values.len(),
        items_encoding(item, values.take(n)) is Err,
    ensures
        items_encoding(item, values) == items_encoding(item, values.take(n)),
    decreases values.len() - n,
{
    if n == values.len() {
        assert(values.take(n) =~= values);
    } else {
        assert(values.drop_last().take(n) =~= values.take(n));
        lemma_items_encoding_fails(item, values.drop_last(), n);
    }
}

/// The encoding of one more item of an array.
pub proof fn lemma_items_encoding_step(item: FieldModel, values: Seq<DatumModel>, n: int)
    requires
        0 <= n < values.len(),
    ensures
        items_encoding(item, values.take(n + 1)) == match items_encoding(item, values.take(n)) {
            Ok(front) => match field_encoding(item, values[n]) {
                Ok(back) => Ok(join(front, back)),
                Err(failure) => Err(failure),
            },
            Err(failure) => Err(failure),
        },
{
    assert(values.take(n + 1).drop_last() =~= values.take(n));
}

/// Writes `number` in `width` bits; the write cannot fail.
fn write_number(writer: &mut BitWriter, number: u64, width: u8) -> (r: Result<(), EncodeError>)
    requires
        width <= 64,
        number < pow2(width as nat),
    ensures
        r is Ok,
        final(writer)@ == old(writer)@ + number_bits(number as nat, width as nat),
{
    match writer.write(number, width) {
        Ok(()) => Ok(()),
        Err(error) => Err(EncodeError::from(error)),
    }
}

/// What a refused number says: the field, the number and the bounds.
pub open spec fn out_of_bounds_message(name: Seq<char>, number: int, min: int, max: int) -> Seq<
    char,
> {
    "Value for field '"@ + name + "' is out of bounds: "@ + decimal_text(number)
        + ". Expected range: ["@ + decimal_text(min) + ", "@ + decimal_text(max) + "]"@
}

/// The text of the error for a number outside its bounds.
pub fn out_of_bounds_text(name: &str, number: i64, min: i32, max: i32) -> (text: String)
    ensures
        text@ == out_of_bounds_message(name@, number as int, min as int, max as int),
{
    let mut text = String::from_str("Value for field '");
    text.append(name);
    text.append("' is out of bounds: ");
    push_decimal(&mut text, number);
    text.append(". Expected range: [");
    push_decimal(&mut text, min as i64);
    text.append(", ");
    push_decimal(&mut text, max as i64);
    text.append("]");
    text
}

/// Writes a number that lies between `min` and `max` as its distance from
/// `min`, in `width` bits. A number outside the bounds is refused, and
/// nothing is written.
pub fn write_bounded_int(
    writer: &mut BitWriter,
    number: i64,
    min: i32,
    max: i32,
    width: u8,
    name: &str,
) -> (r: Result<(), EncodeError>)
    requires
        min <= max,
        width <= 64,
        max - min < pow2(width as nat),
    ensures
        min <= number <= max ==> r is Ok && final(writer)@ == old(writer)@ + number_bits(
            (number - min) as nat,
            width as nat,
        ),
        !(min <= number <= max) ==> {
            &&& final(writer)@ == old(writer)@
            &&& r matches Err(EncodeError::OutOfBounds(message))
            &&& message@ == out_of_bounds_message(name@, number as int, min as int, max as int)
        },
{
    if number < min as i64 || number > max as i64 {
        return Err(EncodeError::OutOfBounds(out_of_bounds_text(name, number, min, max)));
    }
    write_number(writer, (number - min as i64) as u64, width)
}

/// What a host value that no 64-bit number holds says.
pub open spec fn too_wide_message(name: Seq<char>) -> Seq<char> {
    "Value does not fit in 64 bits"@ + " '"@ + name + "'"@
}

/// Writes the number of a host integer, whatever its type, as
/// [`write_bounded_int`] writes it. The host value comes as the outcome
/// `converted` of its checked conversion to 64 bits, so that no value is cut
/// before its bounds are tested: the write succeeds exactly for a host value
/// between `min` and `max`. A host value that no 64-bit number holds lies
/// outside every pair of bounds and is refused as out of bounds. Nothing is
/// written where the value is refused.
pub fn write_bounded_host<E>(
    writer: &mut BitWriter,
    converted: Result<i64, E>,
    min: i32,
    max: i32,
    width: u8,
    name: &str,
) -> (r: Result<(), EncodeError>)
    requires
        min <= max,
        width <= 64,
        max - min < pow2(width as nat),
    ensures
        r is Ok <==> (converted matches Ok(number) && min <= number <= max),
        r is Ok ==> final(writer)@ == old(writer)@ + number_bits(
            (converted->Ok_0 - min) as nat,
            width as nat,
        ),
        r is Err ==> final(writer)@ == old(writer)@ && r->Err_0 is OutOfBounds,
        converted is Err ==> r is Err && r->Err_0->OutOfBounds_0@ == too_wide_message(name@),
{
    match converted {
        Ok(number) => write_bounded_int(writer, number, min, max, width, name),
        Err(_) => Err(EncodeError::OutOfBounds(about("Value does not fit in 64 bits", name))),
    }
}

/// Writes the number of a host integer, whatever its type, as
/// [`write_unbounded_int`] writes it. The host value comes as the outcome
/// `converted` of its checked conversion to 64 bits: the write succeeds
/// exactly for a host value of at most 31 bits. A host value that no 64-bit
/// number holds is refused as out of bounds. Nothing is written where the
/// value is refused.
pub fn write_unbounded_host<E>(writer: &mut BitWriter, converted: Result<i64, E>, name: &str) -> (r:
    Result<(), EncodeError>)
    ensures
        r is Ok <==> (converted matches Ok(number) && fits_width_tag(number as int)),
        r is Ok ==> final(writer)@ == old(writer)@ + (number_bits(
            bit_length(converted->Ok_0 as nat),
            WIDTH_TAG_BITS as nat,
        ) + number_bits(converted->Ok_0 as nat, bit_length(converted->Ok_0 as nat))),
        r is Err ==> final(writer)@ == old(writer)@ && r->Err_0 is OutOfBounds,
        converted is Err ==> r is Err && r->Err_0->OutOfBounds_0@ == too_wide_message(name@),
{
    match converted {
        Ok(number) => write_unbounded_int(writer, number, name),
        Err(_) => Err(EncodeError::OutOfBounds(about("Value does not fit in 64 bits", name))),
    }
}

/// Writes a number of at most 31 bits behind a tag of five bits that holds
/// the count of its binary digits. Any other number is refused, and nothing
/// is written.
pub fn write_unbounded_int(writer: &mut BitWriter, number: i64, name: &str) -> (r: Result<
    (),
    EncodeError,
>)
    ensures
        fits_width_tag(number as int) ==> r is Ok && final(writer)@ == old(writer)@ + (number_bits(
            bit_length(number as nat),
            WIDTH_TAG_BITS as nat,
        ) + number_bits(number as nat, bit_length(number as nat))),
        !fits_width_tag(number as int) ==> {
            &&& final(writer)@ == old(writer)@
            &&& r matches Err(EncodeError::OutOfBounds(_))
        },
{
    if number < 0 || number >= 0x8000_0000 {
        return Err(
            EncodeError::OutOfBounds(about("Value does not fit in 31 bits", name)),
        );
    }
    let digits: u8 = bit_length_of(number as u64);
    let ghost before = writer@;
    proof {
        lemma2_to64();
        lemma_bit_length_below(number as nat, 31);
        lemma_bit_length_covers(number as nat);
    }
    match write_number(writer, digits as u64, WIDTH_TAG_BITS) {
        Ok(()) => {},
        Err(error) => {
            return Err(error);
        },
    }
    let r = write_number(writer, number as u64, digits);
    proof {
        assert(writer@ =~= before + (number_bits(digits as nat, WIDTH_TAG_BITS as nat)
            + number_bits(number as nat, digits as nat)));
    }
    r
}

/// Writes a truth value as one bit.
pub fn write_bool(writer: &mut BitWriter, truth: bool) -> (r: Result<(), EncodeError>)
    ensures
        r is Ok,
        final(writer)@ == old(writer)@ + seq![truth],
{
    let bit: u64 = if truth {
        1
    } else {
        0
    };
    proof {
        lemma2_to64();
        lemma_bits_of_bit(truth);
    }
    write_number(writer, bit, 1)
}

/// Writes the ordinal of a variant in `width` bits. An ordinal that names
/// none of the `variants` variants is refused.
pub fn write_ordinal(
    writer: &mut BitWriter,
    ordinal: u64,
    variants: u8,
    width: u8,
    name: &str,
) -> (r: Result<(), EncodeError>)
    requires
        width <= 64,
        variants < pow2(width as nat),
    ensures
        ordinal < variants ==> r is Ok && final(writer)@ == old(writer)@ + number_bits(
            ordinal as nat,
            width as nat,
        ),
        ordinal >= variants ==> {
            &&& final(writer)@ == old(writer)@
            &&& r matches Err(EncodeError::OutOfBounds(_))
        },
{
    if ordinal >= variants as u64 {
        return Err(EncodeError::OutOfBounds(about("Ordinal names no variant", name)));
    }
    write_number(writer, ordinal, width)
}

/// Writes the length of a byte sequence or of an array in `width` bits. A
/// length above `longest`, where one is given, or one that does not fit in
/// the bits, is refused.
pub fn write_length(
    writer: &mut BitWriter,
    length: usize,
    longest: Option<u32>,
    width: u8,
    name: &str,
) -> (r: Result<(), EncodeError>)
    requires
        width < 64,
    ensures
        ((longest matches Some(most) && length > most) || length >= pow2(width as nat)) ==> {
            &&& final(writer)@ == old(writer)@
            &&& r matches Err(EncodeError::OutOfBounds(_))
        },
        !((longest matches Some(most) && length > most) || length >= pow2(width as nat)) ==> r is Ok
            && final(writer)@ == old(writer)@ + number_bits(length as nat, width as nat),
{
    if let Some(most) = longest {
        if length > most as usize {
            return Err(
                EncodeError::OutOfBounds(about("Length exceeds maximum", name)),
            );
        }
    }
    match writer.write(length as u64, width) {
        Ok(()) => Ok(()),
        Err(error) => Err(EncodeError::from(error)),
    }
}

/// Writes `value` as the field `field`: a presence bit where the field may be
/// absent, then the payload where the value is present. The byte sequences of
/// the value are collected in `buffers`.
pub fn encode_field<'a>(
    field: &Field,
    value: &'a Datum,
    writer: &mut BitWriter,
    buffers: &mut Vec<&'a Vec<u8>>,
) -> (r: Result<(), EncodeError>)
    requires
        field.wf(),
    ensures
        written(
            field_encoding(field@, value@),
            r,
            old(writer)@,
            final(writer)@,
            old(buffers)@,
            final(buffers)@,
        ),
    decreases field@, 2nat,
{
    if field.nullable() {
        if let Datum::Null = value {
            proof {
                assert(Seq::<u8>::empty() + collected_tail(buffers@) =~= collected_tail(buffers@));
            }
            return write_bool(writer, false);
        }
        let ghost before = writer@;
        match write_bool(writer, true) {
            Ok(()) => {},
            Err(error) => {
                return Err(error);
            },
        }
        let r = encode_payload(field, value, writer, buffers);
        proof {
            if let Ok(payload) = payload_encoding(field@, value@) {
                assert(writer@ =~= before + (seq![true] + payload.bits));
                assert(payload.tail + Seq::<u8>::empty() =~= payload.tail);
            }
        }
        r
    } else {
        encode_payload(field, value, writer, buffers)
    }
}

/// Writes a present value, by the kind of the field.
pub fn encode_payload<'a>(
    field: &Field,
    value: &'a Datum,
    writer: &mut BitWriter,
    buffers: &mut Vec<&'a Vec<u8>>,
) -> (r: Result<(), EncodeError>)
    requires
        field.wf(),
    ensures
        written(
            payload_encoding(field@, value@),
            r,
            old(writer)@,
            final(writer)@,
            old(buffers)@,
            final(buffers)@,
        ),
    decreases field@, 1nat,
{
    let width: u8 = field.payload_bits() as u8;
    let ghost bits_before = writer@;
    let ghost buffers_before = buffers@;
    proof {
        lemma2_to64();
        field.lemma_model();
        if !(field@.kind is Record) {
            lemma_payload_width_bound(field@);
        }
        assert(Seq::<u8>::empty() + collected_tail(buffers_before) =~= collected_tail(
            buffers_before,
        ));
    }
    match (field, value) {
        (Field::Int(int_field), Datum::Int(number)) => {
            match (int_field.min_bound(), int_field.max_bound()) {
                (Some(min), Some(max)) => {
                    proof {
                        lemma_bit_length_covers((max - min) as nat);
                    }
                    write_bounded_int(writer, *number, min, max, width, field.name())
                },
                _ => write_unbounded_int(writer, *number, field.name()),
            }
        },
        (Field::Boolean(_), Datum::Bool(truth)) => write_bool(writer, *truth),
        (Field::Enum(enum_field), Datum::Enum(ordinal)) => {
            let variants: u8 = enum_field.variant_count();
            proof {
                lemma_bit_length_covers(variants as nat);
            }
            write_ordinal(writer, *ordinal, variants, width, field.name())
        },
        (Field::Bytes(bytes_field), Datum::Bytes(bytes)) => {
            match write_length(writer, bytes.len(), bytes_field.longest(), width, field.name()) {
                Ok(()) => {},
                Err(error) => {
                    return Err(error);
                },
            }
            buffers.push(bytes);
            proof {
                assert(buffers@.drop_last() =~= buffers_before);
            }
            Ok(())
        },
        (Field::Record(record_field), Datum::Record(values)) => {
            let fields = record_field.sub_fields();
            proof {
                lemma_field_models(fields@);
                lemma_datum_models(values@);
            }
            if values.len() != fields.len() {
                return Err(
                    EncodeError::NotSupported(
                        about("Value has another number of fields", field.name()),
                    ),
                );
            }
            encode_fields(fields, values, writer, buffers)
        },
        (Field::Array(array_field), Datum::Array(items)) => {
            let item_field = array_field.item_field();
            proof {
                lemma_datum_models(items@);
            }
            match write_length(writer, items.len(), None, width, field.name()) {
                Ok(()) => {},
                Err(error) => {
                    return Err(error);
                },
            }
            let ghost bits_here = writer@;
            let r = encode_items(item_field, items, writer, buffers);
            proof {
                if let Ok(rest) = items_encoding(item_field@, datum_models(items@)) {
                    assert(writer@ =~= bits_before + (number_bits(
                        items@.len() as nat,
                        width as nat,
                    ) + rest.bits));
                    assert(rest.tail + Seq::<u8>::empty() =~= rest.tail);
                }
            }
            r
        },
        _ => Err(
            EncodeError::NotSupported(about("Value is of another kind", field.name())),
        ),
    }
}

/// Writes the items of an array one after the other and stops at the first
/// failure.
pub fn encode_items<'a>(
    item_field: &Field,
    items: &'a Vec<Datum>,
    writer: &mut BitWriter,
    buffers: &mut Vec<&'a Vec<u8>>,
) -> (r: Result<(), EncodeError>)
    requires
        item_field.wf(),
    ensures
        written(
            items_encoding(item_field@, datum_models(items@)),
            r,
            old(writer)@,
            final(writer)@,
            old(buffers)@,
            final(buffers)@,
        ),
    decreases item_field@, 3nat,
{
    let ghost bits_before = writer@;
    let ghost buffers_before = buffers@;
    let ghost models = datum_models(items@);
    let mut i: usize = 0;
    proof {
        lemma_datum_models(items@);
        assert(models.take(0) =~= Seq::<DatumModel>::empty());
        assert(writer@ =~= bits_before + Seq::<bool>::empty());
        assert(Seq::<u8>::empty() + collected_tail(buffers_before) =~= collected_tail(
            buffers_before,
        ));
    }
    while i < items.len()
        invariant
            i <= items@.len(),
            item_field.wf(),
            models == datum_models(items@),
            models.len() == items@.len(),
            forall|k: int| 0 <= k < items@.len() ==> (#[trigger] models[k]) == items@[k]@,
            items_encoding(item_field@, models.take(i as int)) is Ok,
            writer@ == bits_before + items_encoding(item_field@, models.take(i as int))->Ok_0.bits,
            collected_tail(buffers@) == items_encoding(
                item_field@,
                models.take(i as int),
            )->Ok_0.tail + collected_tail(buffers_before),
        decreases items@.len() - i,
    {
        let ghost front = items_encoding(item_field@, models.take(i as int))->Ok_0;
        proof {
            lemma_items_encoding_step(item_field@, models, i as int);
        }
        match encode_field(item_field, &items[i], writer, buffers) {
            Ok(()) => {},
            Err(error) => {
                proof {
                    lemma_items_encoding_fails(item_field@, models, i + 1);
                }
                return Err(error);
            },
        }
        proof {
            let back = field_encoding(item_field@, models[i as int])->Ok_0;
            assert(writer@ =~= bits_before + join(front, back).bits);
            assert(collected_tail(buffers@) =~= join(front, back).tail + collected_tail(
                buffers_before,
            ));
        }
        i = i + 1;
    }
    proof {
        assert(models.take(i as int) =~= models);
    }
    Ok(())
}

/// Writes the values of the fields of a record, field by field in
/// declaration order, and stops at the first failure.
pub fn encode_fields<'a>(
    fields: &Vec<Field>,
    values: &'a Vec<Datum>,
    writer: &mut BitWriter,
    buffers: &mut Vec<&'a Vec<u8>>,
) -> (r: Result<(), EncodeError>)
    requires
        fields@.len() == values@.len(),
        forall|i: int| 0 <= i < fields@.len() ==> (#[trigger] fields@[i]).wf(),
    ensures
        written(
            fields_encoding(field_models(fields@), datum_models(values@)),
            r,
            old(writer)@,
            final(writer)@,
            old(buffers)@,
            final(buffers)@,
        ),
    decreases field_models(fields@), 0nat,
{
    let ghost bits_before = writer@;
    let ghost buffers_before = buffers@;
    let ghost models = field_models(fields@);
    let ghost contents = datum_models(values@);
    let mut i: usize = 0;
    proof {
        lemma_field_models(fields@);
        lemma_datum_models(values@);
        assert(models.take(0) =~= Seq::<FieldModel>::empty());
        assert(writer@ =~= bits_before + Seq::<bool>::empty());
        assert(Seq::<u8>::empty() + collected_tail(buffers_before) =~= collected_tail(
            buffers_before,
        ));
    }
    while i < fields.len()
        invariant
            i <= fields@.len(),
            fields@.len() == values@.len(),
            models == field_models(fields@),
            contents == datum_models(values@),
            models.len() == fields@.len(),
            contents.len() == values@.len(),
            forall|k: int| 0 <= k < fields@.len() ==> (#[trigger] fields@[k]).wf(),
            forall|k: int| 0 <= k < fields@.len() ==> (#[trigger] models[k]) == fields@[k]@,
            forall|k: int| 0 <= k < values@.len() ==> (#[trigger] contents[k]) == values@[k]@,
            fields_encoding(models.take(i as int), contents.take(i as int)) is Ok,
            writer@ == bits_before + fields_encoding(
                models.take(i as int),
                contents.take(i as int),
            )->Ok_0.bits,
            collected_tail(buffers@) == fields_encoding(
                models.take(i as int),
                contents.take(i as int),
            )->Ok_0.tail + collected_tail(buffers_before),
        decreases fields@.len() - i,
    {
        let ghost front = fields_encoding(models.take(i as int), contents.take(i as int))->Ok_0;
        proof {
            lemma_fields_encoding_step(models, contents, i as int);
        }
        match encode_field(&fields[i], &values[i], writer, buffers) {
            Ok(()) => {},
            Err(error) => {
                proof {
                    lemma_fields_encoding_fails(models, contents, i + 1);
                }
                return Err(error);
            },
        }
        proof {
            let back = field_encoding(models[i as int], contents[i as int])->Ok_0;
            assert(writer@ =~= bits_before + join(front, back).bits);
            assert(collected_tail(buffers@) =~= join(front, back).tail + collected_tail(
                buffers_before,
            ));
        }
        i = i + 1;
    }
    proof {
        assert(models.take(i as int) =~= models);
        assert(contents.take(i as int) =~= contents);
    }
    Ok(())
}

} // verus!
