//! What holds of the wire layout for every schema and every value.

use vstd::prelude::*;
use vstd::arithmetic::power2::{lemma2_to64, lemma2_to64_rest, lemma_pow2_strictly_increases, pow2};
use crate::bit::{
    bit_length,
    bits_of_bytes,
    bits_value,
    lemma_bit_length_below,
    lemma_bit_length_covers,
    lemma_bits_of_bytes_concat,
    lemma_bits_of_pack_bits,
    lemma_bits_value_of,
    pack_bits,
    zero_bits,
};
use crate::field::{FieldModel, KindModel, WIDTH_TAG_BITS};
use crate::datum::{Datum, DatumModel};
use crate::errors::EncodeError;
use crate::schema::{encoded, Schema, SchemaModel};
use crate::utils::{field_holds_bytes, holds_bytes};
use crate::wire::{
    DecodeFailure,
    EncodeFailure,
    field_decoding,
    field_encoding,
    fields_decoding,
    fields_encoding,
    items_decoding,
    items_encoding,
    join,
    number_bits,
    only_bits,
    payload_decoding,
    payload_encoding,
    read_number,
    wire_bytes,
    Decoded,
    DecodedList,
    Encoding,
};

verus! {

/// Whether `input` holds the encoding `encoding`: its bits from the bit
/// `position` on, and its tail bytes in front of the tail cursor `cursor`.
pub open spec fn holds(input: Seq<u8>, position: nat, cursor: nat, encoding: Encoding) -> bool {
    &&& position + encoding.bits.len() <= 8 * input.len()
    &&& bits_of_bytes(input).subrange(position as int, (position + encoding.bits.len()) as int)
        == encoding.bits
    &&& encoding.tail.len() <= cursor <= input.len()
    &&& input.subrange(cursor - encoding.tail.len(), cursor as int) == encoding.tail
}

/// An input that holds two encodings joined holds the first where the joined
/// one starts, and the second behind the first.
pub proof fn lemma_holds_join(
    input: Seq<u8>,
    position: nat,
    cursor: nat,
    first: Encoding,
    second: Encoding,
)
    requires
        holds(input, position, cursor, join(first, second)),
    ensures
        holds(input, position, cursor, first),
        holds(
            input,
            position + first.bits.len(),
            (cursor - first.tail.len()) as nat,
            second,
        ),
{
    let all = bits_of_bytes(input);
    let joined = join(first, second);
    let start = position as int;
    assert(all.subrange(start, start + first.bits.len()) =~= joined.bits.subrange(
        0,
        first.bits.len() as int,
    ));
    assert(joined.bits.subrange(0, first.bits.len() as int) =~= first.bits);
    assert(all.subrange(start + first.bits.len(), start + joined.bits.len())
        =~= joined.bits.subrange(first.bits.len() as int, joined.bits.len() as int));
    assert(joined.bits.subrange(first.bits.len() as int, joined.bits.len() as int)
        =~= second.bits);
    let end = cursor as int;
    assert(input.subrange(end - first.tail.len(), end) =~= joined.tail.subrange(
        second.tail.len() as int,
        joined.tail.len() as int,
    ));
    assert(joined.tail.subrange(second.tail.len() as int, joined.tail.len() as int)
        =~= first.tail);
    assert(input.subrange(end - joined.tail.len(), end - first.tail.len())
        =~= joined.tail.subrange(0, second.tail.len() as int));
    assert(joined.tail.subrange(0, second.tail.len() as int) =~= second.tail);
}

/// A number written in bits that can hold it is the number read from them.
pub proof fn lemma_read_number_bits(
    input: Seq<u8>,
    position: nat,
    number: nat,
    count: nat,
)
    requires
        count <= 64,
        number < pow2(count),
        position + count <= 8 * input.len(),
        bits_of_bytes(input).subrange(position as int, (position + count) as int) == number_bits(
            number,
            count,
        ),
    ensures
        read_number(input, position, count) == Some(number),
{
    lemma2_to64_rest();
    if count < 64 {
        lemma_pow2_strictly_increases(count, 64);
    }
    lemma_bits_value_of(number as u64, count);
}

/// The value of a single bit.
pub proof fn lemma_single_bit_value(bit: bool)
    ensures
        bits_value(seq![bit]) == if bit { 1nat } else { 0nat },
{
    assert(seq![bit].drop_first() =~= Seq::<bool>::empty());
    assert(bits_value(seq![bit].drop_first()) == 0);
}

/// The payload of a well-formed integer, enumeration, byte-sequence or array
/// field is at most 32 bits wide.
pub proof fn lemma_payload_width_bound(field: FieldModel)
    requires
        field.wf(),
        !(field.kind is Record),
    ensures
        field.payload_width() <= 32,
{
    lemma2_to64();
    match field.kind {
        KindModel::Int { min: Some(min), max: Some(max) } => {
            lemma_bit_length_below((max - min) as nat, 32);
        },
        KindModel::Bytes { max_length: Some(longest) } => {
            lemma_bit_length_below(longest, 32);
        },
        KindModel::Enum { variants } => {
            lemma_bit_length_below(variants, 32);
        },
        KindModel::Array { max_items, .. } => {
            lemma_bit_length_below(max_items, 32);
        },
        _ => {},
    }
}

/// Decoding reads back what encoding wrote: an input that holds the encoding
/// of a value as a well-formed field decodes, from the place where the
/// encoding starts, to that value, and stops where the encoding ends.
pub proof fn lemma_field_round_trip(
    field: FieldModel,
    value: DatumModel,
    input: Seq<u8>,
    position: nat,
    cursor: nat,
)
    requires
        field.wf(),
        field_encoding(field, value) is Ok,
        holds(input, position, cursor, field_encoding(field, value)->Ok_0),
    ensures
        field_decoding(field, input, position, cursor) == Ok::<Decoded, DecodeFailure>(
            Decoded {
                value,
                position: position + field_encoding(field, value)->Ok_0.bits.len(),
                cursor: (cursor - field_encoding(field, value)->Ok_0.tail.len()) as nat,
            },
        ),
    decreases field, 2nat,
{
    let encoding = field_encoding(field, value)->Ok_0;
    lemma2_to64();
    if field.nullable {
        if value is Null {
            lemma_single_bit_value(false);
            assert(bits_of_bytes(input).subrange(position as int, (position + 1) as int) == seq![false]);
        } else {
            let payload = payload_encoding(field, value)->Ok_0;
            lemma_holds_join(input, position, cursor, only_bits(seq![true]), payload);
            lemma_single_bit_value(true);
            assert(bits_of_bytes(input).subrange(position as int, (position + 1) as int) == seq![true]);
            lemma_payload_round_trip(field, value, input, position + 1, cursor);
        }
    } else {
        lemma_payload_round_trip(field, value, input, position, cursor);
    }
}

/// The round trip of a present value, by the kind of the field.
pub proof fn lemma_payload_round_trip(
    field: FieldModel,
    value: DatumModel,
    input: Seq<u8>,
    position: nat,
    cursor: nat,
)
    requires
        field.wf(),
        payload_encoding(field, value) is Ok,
        holds(input, position, cursor, payload_encoding(field, value)->Ok_0),
    ensures
        payload_decoding(field, input, position, cursor) == Ok::<
            Decoded,
            DecodeFailure,
        >(
            Decoded {
                value,
                position: position + payload_encoding(field, value)->Ok_0.bits.len(),
                cursor: (cursor - payload_encoding(field, value)->Ok_0.tail.len()) as nat,
            },
        ),
    decreases field, 1nat,
{
    let encoding = payload_encoding(field, value)->Ok_0;
    let width = field.payload_width();
    let all = bits_of_bytes(input);
    lemma2_to64();
    if !(field.kind is Record) {
        lemma_payload_width_bound(field);
    }
    match (field.kind, value) {
        (KindModel::Int { min: Some(min), max: Some(max) }, DatumModel::Int(number)) => {
            lemma_bit_length_covers((max - min) as nat);
            lemma_read_number_bits(input, position, (number - min) as nat, width);
        },
        (KindModel::Int { .. }, DatumModel::Int(number)) => {
            let digits = bit_length(number as nat);
            lemma_bit_length_below(number as nat, 31);
            lemma_bit_length_covers(number as nat);
            let tag = only_bits(number_bits(digits, WIDTH_TAG_BITS as nat));
            let body = only_bits(number_bits(number as nat, digits));
            assert(encoding.bits == join(tag, body).bits);
            assert(join(tag, body).tail =~= encoding.tail);
            lemma_holds_join(input, position, cursor, tag, body);
            lemma_read_number_bits(input, position, digits, 5);
            lemma_read_number_bits(input, position + 5, number as nat, digits);
        },
        (KindModel::Boolean, DatumModel::Bool(truth)) => {
            lemma_single_bit_value(truth);
            assert(all.subrange(position as int, (position + 1) as int) == seq![truth]);
        },
        (KindModel::Enum { variants }, DatumModel::Enum(ordinal)) => {
            lemma_bit_length_covers(variants);
            lemma_read_number_bits(input, position, ordinal, width);
        },
        (KindModel::Bytes { max_length }, DatumModel::Bytes(bytes)) => {
            lemma_read_number_bits(input, position, bytes.len(), width);
        },
        (KindModel::Record { fields }, DatumModel::Record(values)) => {
            lemma_fields_round_trip(fields, values, input, position, cursor);
        },
        (KindModel::Array { items, .. }, DatumModel::Array(values)) => {
            let prefix = only_bits(number_bits(values.len(), width));
            let rest = items_encoding(*items, values)->Ok_0;
            lemma_holds_join(input, position, cursor, prefix, rest);
            lemma_read_number_bits(input, position, values.len(), width);
            lemma_items_round_trip(*items, values, input, position + width, cursor);
        },
        _ => {},
    }
}

/// The round trip of the values of the fields of a record.
pub proof fn lemma_fields_round_trip(
    fields: Seq<FieldModel>,
    values: Seq<DatumModel>,
    input: Seq<u8>,
    position: nat,
    cursor: nat,
)
    requires
        fields.len() == values.len(),
        forall|i: int| 0 <= i < fields.len() ==> (#[trigger] fields[i]).wf(),
        fields_encoding(fields, values) is Ok,
        holds(input, position, cursor, fields_encoding(fields, values)->Ok_0),
    ensures
        fields_decoding(fields, input, position, cursor) == Ok::<
            DecodedList,
            DecodeFailure,
        >(
            DecodedList {
                values,
                position: position + fields_encoding(fields, values)->Ok_0.bits.len(),
                cursor: (cursor - fields_encoding(fields, values)->Ok_0.tail.len()) as nat,
            },
        ),
    decreases fields, 0nat,
{
    if fields.len() == 0 {
        assert(values =~= Seq::<DatumModel>::empty());
    } else {
        let front = fields_encoding(fields.drop_last(), values.drop_last())->Ok_0;
        let back = field_encoding(fields.last(), values.last())->Ok_0;
        lemma_holds_join(input, position, cursor, front, back);
        lemma_fields_round_trip(fields.drop_last(), values.drop_last(), input, position, cursor);
        lemma_field_round_trip(
            fields.last(),
            values.last(),
            input,
            position + front.bits.len(),
            (cursor - front.tail.len()) as nat,
        );
        assert(values.drop_last().push(values.last()) =~= values);
    }
}

/// The round trip of the items of an array.
pub proof fn lemma_items_round_trip(
    item: FieldModel,
    values: Seq<DatumModel>,
    input: Seq<u8>,
    position: nat,
    cursor: nat,
)
    requires
        item.wf(),
        items_encoding(item, values) is Ok,
        holds(input, position, cursor, items_encoding(item, values)->Ok_0),
    ensures
        items_decoding(item, input, position, cursor, values.len()) == Ok::<
            DecodedList,
            DecodeFailure,
        >(
            DecodedList {
                values,
                position: position + items_encoding(item, values)->Ok_0.bits.len(),
                cursor: (cursor - items_encoding(item, values)->Ok_0.tail.len()) as nat,
            },
        ),
    decreases item, values.len() + 3,
{
    if values.len() == 0 {
        assert(values =~= Seq::<DatumModel>::empty());
    } else {
        let front = items_encoding(item, values.drop_last())->Ok_0;
        let back = field_encoding(item, values.last())->Ok_0;
        lemma_holds_join(input, position, cursor, front, back);
        lemma_items_round_trip(item, values.drop_last(), input, position, cursor);
        lemma_field_round_trip(
            item,
            values.last(),
            input,
            position + front.bits.len(),
            (cursor - front.tail.len()) as nat,
        );
        assert(values.drop_last().push(values.last()) =~= values);
    }
}

/// The bytes that an encoding stands for hold it: the bits from the first bit
/// on, the tail bytes in front of the end.
pub proof fn lemma_wire_bytes_hold(encoding: Encoding)
    ensures
        holds(wire_bytes(encoding), 0, wire_bytes(encoding).len(), encoding),
{
    let packed = pack_bits(encoding.bits);
    let wire = wire_bytes(encoding);
    lemma_bits_of_pack_bits(encoding.bits);
    lemma_bits_of_bytes_concat(packed, encoding.tail);
    assert(bits_of_bytes(wire).subrange(0, encoding.bits.len() as int) =~= encoding.bits);
    assert(wire.subrange(wire.len() - encoding.tail.len(), wire.len() as int) =~= encoding.tail);
}


/// Zero has no bit set.
proof fn lemma_zero_has_no_bits(i: u64)
    by (bit_vector)
    requires
        i < 64,
    ensures
        (0u64 >> i) & 1 == 0,
{
}

/// The number `2^w - 1` has its low `w` bits set.
proof fn lemma_low_ones_have_all_bits(w: u64, i: u64)
    by (bit_vector)
    requires
        i < w < 64,
    ensures
        ((((1u64 << w) - 1) as u64) >> i) & 1 == 1,
{
}

/// The bits of zero are zero bits.
pub proof fn lemma_number_bits_of_zero(count: nat)
    ensures
        number_bits(0, count) == zero_bits(count),
{
    assert forall|i: int| 0 <= i < count implies #[trigger] number_bits(0, count)[i] == false by {
        if i < 64 {
            lemma_zero_has_no_bits(i as u64);
        }
    }
    assert(number_bits(0, count) =~= zero_bits(count));
}

/// Round trip. Decoding the bytes that stand for a message gives the message
/// back: for every well-formed schema and every value that the schema
/// encodes, the bytes of the encoding decode to that value.
pub proof fn law_round_trip(schema: SchemaModel, value: DatumModel)
    requires
        schema.wf(),
        schema.encoding(value) is Ok,
    ensures
        schema.decoding(wire_bytes(schema.encoding(value)->Ok_0)) == Ok::<
            DatumModel,
            DecodeFailure,
        >(value),
{
    let encoding = schema.encoding(value)->Ok_0;
    let wire = wire_bytes(encoding);
    lemma_wire_bytes_hold(encoding);
    match (schema, value) {
        (SchemaModel::Record { fields }, DatumModel::Record(values)) => {
            lemma_fields_round_trip(fields, values, wire, 0, wire.len());
        },
        (SchemaModel::Enum { variants }, DatumModel::Enum(ordinal)) => {
            lemma2_to64();
            lemma_bit_length_below(variants.len(), 8);
            lemma_bit_length_covers(variants.len());
            lemma_read_number_bits(wire, 0, ordinal, bit_length(variants.len()));
        },
        _ => {},
    }
}

/// Length prefix bound. A byte sequence that a byte-sequence field encodes is
/// no longer than the field allows; its bytes are the tail bytes of the
/// encoding; and an input that holds the encoding decodes to a byte sequence
/// of the same length.
pub proof fn law_length_prefix_bound(
    field: FieldModel,
    bytes: Seq<u8>,
    input: Seq<u8>,
    position: nat,
    cursor: nat,
)
    requires
        field.wf(),
        field.kind is Bytes,
        payload_encoding(field, DatumModel::Bytes(bytes)) is Ok,
        holds(input, position, cursor, payload_encoding(field, DatumModel::Bytes(bytes))->Ok_0),
    ensures
        field.kind->max_length matches Some(longest) ==> bytes.len() <= longest,
        payload_encoding(field, DatumModel::Bytes(bytes))->Ok_0.tail == bytes,
        read_number(input, position, field.payload_width()) == Some(bytes.len()),
        payload_decoding(field, input, position, cursor) matches Ok(decoded)
            && decoded.value matches DatumModel::Bytes(read) && read.len() == bytes.len(),
{
    lemma_payload_round_trip(field, DatumModel::Bytes(bytes), input, position, cursor);
    lemma_payload_width_bound(field);
    lemma2_to64();
    lemma_read_number_bits(input, position, bytes.len(), field.payload_width());
}

/// Bit-width contract. A number between the bounds of a bounded integer field
/// takes exactly the payload width of the field in the bit stream; a number
/// of a field without bounds takes five bits and as many more as it has
/// binary digits. Decoding consumes the same count of bits.
pub proof fn law_bit_width(
    field: FieldModel,
    number: int,
    input: Seq<u8>,
    position: nat,
    cursor: nat,
)
    requires
        field.wf(),
        field.kind is Int,
        payload_encoding(field, DatumModel::Int(number)) is Ok,
        holds(input, position, cursor, payload_encoding(field, DatumModel::Int(number))->Ok_0),
    ensures
        ({
            let bits = payload_encoding(field, DatumModel::Int(number))->Ok_0.bits;
            let consumed = payload_decoding(field, input, position, cursor)->Ok_0.position
                - position;
            if field.kind->min is Some && field.kind->max is Some {
                &&& bits.len() == field.payload_width()
                &&& bits.len() == bit_length((field.kind->max->Some_0 - field.kind->min->Some_0) as nat)
                &&& consumed == bits.len()
            } else {
                &&& bits.len() == 5 + bit_length(number as nat)
                &&& consumed == bits.len()
            }
        }),
{
    lemma_payload_round_trip(field, DatumModel::Int(number), input, position, cursor);
}

/// Wire stability. Encoding depends on nothing but the schema and the value:
/// two encodings of values with the same content against the same schema
/// both succeed with the same bytes, or both fail.
pub proof fn law_wire_stability(
    schema: Schema,
    first: Datum,
    second: Datum,
    first_result: Result<Vec<u8>, EncodeError>,
    second_result: Result<Vec<u8>, EncodeError>,
)
    requires
        first@ == second@,
        encoded(schema@.encoding(first@), first_result),
        encoded(schema@.encoding(second@), second_result),
    ensures
        first_result is Ok <==> second_result is Ok,
        first_result matches Ok(first_bytes) ==> second_result matches Ok(second_bytes)
            && first_bytes@ == second_bytes@,
{
}

/// Nullability. An absent value of an optional field is one zero bit and
/// nothing else; a present one is a one bit followed by its payload, which for
/// a bounded integer, a truth value or an enumeration is the payload width of
/// the field.
pub proof fn law_nullability(field: FieldModel, value: DatumModel)
    requires
        field.wf(),
        field.nullable,
    ensures
        field_encoding(field, DatumModel::Null) == Ok::<Encoding, EncodeFailure>(
            only_bits(seq![false]),
        ),
        !(value is Null) && field_encoding(field, value) is Ok ==> {
            let whole = field_encoding(field, value)->Ok_0;
            let payload = payload_encoding(field, value)->Ok_0;
            &&& whole.bits == seq![true] + payload.bits
            &&& whole.bits.len() == 1 + payload.bits.len()
            &&& whole.tail == payload.tail
            &&& (field.kind is Boolean || field.kind is Enum || (field.kind is Int
                && field.kind->min is Some && field.kind->max is Some)) ==> whole.bits.len() == 1
                + field.payload_width()
        },
{
    if !(value is Null) && field_encoding(field, value) is Ok {
        let payload = payload_encoding(field, value)->Ok_0;
        assert(payload.tail + Seq::<u8>::empty() =~= payload.tail);
    }
}

/// A number at the lower bound of its field is encoded as zero bits only.
pub proof fn law_min_is_all_zero(field: FieldModel)
    requires
        field.wf(),
        field.kind is Int,
        field.kind->min is Some,
        field.kind->max is Some,
    ensures
        payload_encoding(field, DatumModel::Int(field.kind->min->Some_0)) == Ok::<
            Encoding,
            EncodeFailure,
        >(only_bits(zero_bits(field.payload_width()))),
{
    lemma_number_bits_of_zero(field.payload_width());
}

/// A number at the upper bound of its field is encoded as one bits only,
/// where the count of numbers between the bounds is a power of two.
pub proof fn law_max_is_all_one(field: FieldModel)
    requires
        field.wf(),
        field.kind is Int,
        field.kind->min is Some,
        field.kind->max is Some,
        field.kind->max->Some_0 - field.kind->min->Some_0 + 1 == pow2(field.payload_width()),
    ensures
        payload_encoding(field, DatumModel::Int(field.kind->max->Some_0)) == Ok::<
            Encoding,
            EncodeFailure,
        >(only_bits(Seq::new(field.payload_width(), |i: int| true))),
{
    let width = field.payload_width();
    let span = (field.kind->max->Some_0 - field.kind->min->Some_0) as nat;
    lemma_payload_width_bound(field);
    lemma2_to64();
    vstd::bits::lemma_u64_pow2_no_overflow(width);
    vstd::bits::lemma_u64_shl_is_mul(1, width as u64);
    assert forall|i: int| 0 <= i < width implies #[trigger] number_bits(span, width)[i] by {
        lemma_low_ones_have_all_bits(width as u64, i as u64);
    }
    assert(number_bits(span, width) =~= Seq::new(width, |i: int| true));
}

/// A number outside the bounds of its field is refused as out of bounds,
/// whether or not the field may be absent.
pub proof fn law_out_of_bounds(field: FieldModel, number: int)
    requires
        field.kind is Int,
        field.kind->min is Some,
        field.kind->max is Some,
        number < field.kind->min->Some_0 || number > field.kind->max->Some_0,
    ensures
        payload_encoding(field, DatumModel::Int(number)) == Err::<Encoding, EncodeFailure>(
            EncodeFailure::OutOfBounds,
        ),
        field_encoding(field, DatumModel::Int(number)) == Err::<Encoding, EncodeFailure>(
            EncodeFailure::OutOfBounds,
        ),
{
}

/// An empty byte sequence is encoded as a length prefix of zero bits and no
/// tail bytes.
pub proof fn law_empty_bytes(field: FieldModel)
    requires
        field.wf(),
        field.kind is Bytes,
    ensures
        payload_encoding(field, DatumModel::Bytes(Seq::empty())) == Ok::<Encoding, EncodeFailure>(
            only_bits(zero_bits(field.payload_width())),
        ),
{
    lemma_number_bits_of_zero(field.payload_width());
    vstd::arithmetic::power2::lemma_pow2_pos(field.payload_width());
}

/// An empty array is encoded as a length prefix of zero bits and no items.
pub proof fn law_empty_array(field: FieldModel)
    requires
        field.wf(),
        field.kind is Array,
    ensures
        payload_encoding(field, DatumModel::Array(Seq::empty())) == Ok::<Encoding, EncodeFailure>(
            only_bits(zero_bits(field.payload_width())),
        ),
{
    let width = field.payload_width();
    lemma_number_bits_of_zero(width);
    vstd::arithmetic::power2::lemma_pow2_pos(width);
    assert(zero_bits(width) + Seq::<bool>::empty() =~= zero_bits(width));
    assert(Seq::<u8>::empty() + Seq::<u8>::empty() =~= Seq::<u8>::empty());
}

/// The first variant of an enumeration is encoded as zero bits only.
pub proof fn law_first_variant_is_all_zero(field: FieldModel)
    requires
        field.wf(),
        field.kind is Enum,
        field.kind->variants > 0,
    ensures
        payload_encoding(field, DatumModel::Enum(0)) == Ok::<Encoding, EncodeFailure>(
            only_bits(zero_bits(field.payload_width())),
        ),
{
    lemma_number_bits_of_zero(field.payload_width());
}

/// A read beyond the end of the input fails for want of bits, whatever the
/// field: a bounded integer, an enumeration, a byte sequence or an array
/// whose payload width exceeds the bits left, or a truth value or presence
/// bit with no bit left.
pub proof fn law_not_enough_bits(field: FieldModel, input: Seq<u8>, position: nat, cursor: nat)
    requires
        field.wf(),
    ensures
        field.nullable && position + 1 > 8 * input.len() ==> field_decoding(
            field,
            input,
            position,
            cursor,
        ) == Err::<Decoded, DecodeFailure>(DecodeFailure::NotEnoughBits),
        !(field.kind is Record) && position + field.payload_width() > 8 * input.len()
            ==> payload_decoding(field, input, position, cursor) == Err::<Decoded, DecodeFailure>(
            DecodeFailure::NotEnoughBits,
        ),
{
}

/// An ordinal read that names no variant of the enumeration is refused as
/// out of bounds.
pub proof fn law_unknown_ordinal(field: FieldModel, input: Seq<u8>, position: nat, cursor: nat)
    requires
        field.kind is Enum,
        read_number(input, position, field.payload_width()) matches Some(ordinal) && ordinal
            >= field.kind->variants,
    ensures
        payload_decoding(field, input, position, cursor) == Err::<Decoded, DecodeFailure>(
            DecodeFailure::OutOfBounds,
        ),
{
}


/// Whether decoding a value from an input cut to its first `kept` bytes goes
/// as decoding it from the whole input went: where the whole input gave a
/// value, the cut input gives the same value if the value ended within the
/// bytes kept, and fails for want of bits if the value began within them and
/// ended beyond.
pub open spec fn cut_short(
    on_whole: Result<Decoded, DecodeFailure>,
    on_cut: Result<Decoded, DecodeFailure>,
    position: nat,
    kept: nat,
    cursor: nat,
) -> bool {
    on_whole matches Ok(decoded) ==> {
        &&& decoded.position >= position
        &&& decoded.position <= 8 * kept ==> on_cut == Ok::<Decoded, DecodeFailure>(
            Decoded { value: decoded.value, position: decoded.position, cursor },
        )
        &&& position <= 8 * kept < decoded.position ==> on_cut == Err::<Decoded, DecodeFailure>(
            DecodeFailure::NotEnoughBits,
        )
    }
}

/// Whether decoding several values from an input cut to its first `kept`
/// bytes goes as decoding them from the whole input went.
pub open spec fn cut_short_list(
    on_whole: Result<DecodedList, DecodeFailure>,
    on_cut: Result<DecodedList, DecodeFailure>,
    position: nat,
    kept: nat,
    cursor: nat,
) -> bool {
    on_whole matches Ok(decoded) ==> {
        &&& decoded.position >= position
        &&& decoded.position <= 8 * kept ==> on_cut == Ok::<DecodedList, DecodeFailure>(
            DecodedList { values: decoded.values, position: decoded.position, cursor },
        )
        &&& position <= 8 * kept < decoded.position ==> on_cut == Err::<
            DecodedList,
            DecodeFailure,
        >(DecodeFailure::NotEnoughBits)
    }
}

/// A number that lies within the first bytes of an input is the number read
/// from those bytes alone; one that does not cannot be read from them.
pub proof fn lemma_read_number_cut(input: Seq<u8>, kept: nat, position: nat, count: nat)
    requires
        kept <= input.len(),
    ensures
        position + count <= 8 * kept ==> read_number(input.take(kept as int), position, count)
            == read_number(input, position, count),
        position + count > 8 * kept ==> read_number(input.take(kept as int), position, count)
            is None,
{
    if position + count <= 8 * kept {
        let cut = input.take(kept as int);
        assert(bits_of_bytes(cut).subrange(position as int, (position + count) as int)
            =~= bits_of_bytes(input).subrange(position as int, (position + count) as int));
    }
}

/// Decoding a field that holds no byte sequence from a cut input goes as
/// decoding it from the whole input went.
pub proof fn lemma_field_cut(
    field: FieldModel,
    input: Seq<u8>,
    kept: nat,
    position: nat,
    whole_cursor: nat,
    cut_cursor: nat,
)
    requires
        !field_holds_bytes(field),
        kept <= input.len(),
    ensures
        cut_short(
            field_decoding(field, input, position, whole_cursor),
            field_decoding(field, input.take(kept as int), position, cut_cursor),
            position,
            kept,
            cut_cursor,
        ),
        field_decoding(field, input, position, whole_cursor) matches Ok(decoded)
            ==> decoded.cursor == whole_cursor,
    decreases field, 2nat,
{
    lemma_read_number_cut(input, kept, position, 1);
    if field.nullable {
        lemma_payload_cut(field, input, kept, position + 1, whole_cursor, cut_cursor);
    } else {
        lemma_payload_cut(field, input, kept, position, whole_cursor, cut_cursor);
    }
}

/// Decoding a present value that holds no byte sequence from a cut input
/// goes as decoding it from the whole input went.
pub proof fn lemma_payload_cut(
    field: FieldModel,
    input: Seq<u8>,
    kept: nat,
    position: nat,
    whole_cursor: nat,
    cut_cursor: nat,
)
    requires
        !field_holds_bytes(field),
        kept <= input.len(),
    ensures
        cut_short(
            payload_decoding(field, input, position, whole_cursor),
            payload_decoding(field, input.take(kept as int), position, cut_cursor),
            position,
            kept,
            cut_cursor,
        ),
        payload_decoding(field, input, position, whole_cursor) matches Ok(decoded)
            ==> decoded.cursor == whole_cursor,
    decreases field, 1nat,
{
    let width = field.payload_width();
    lemma_read_number_cut(input, kept, position, width);
    lemma_read_number_cut(input, kept, position, 1);
    match field.kind {
        KindModel::Int { min: Some(min), max: Some(max) } => {},
        KindModel::Int { .. } => {
            if let Some(digits) = read_number(input, position, width) {
                lemma_read_number_cut(input, kept, position + width, digits);
            }
        },
        KindModel::Record { fields } => {
            lemma_fields_cut(fields, input, kept, position, whole_cursor, cut_cursor);
        },
        KindModel::Array { items, .. } => {
            if let Some(length) = read_number(input, position, width) {
                lemma_items_cut(
                    *items,
                    input,
                    kept,
                    position + width,
                    whole_cursor,
                    cut_cursor,
                    length,
                );
            }
        },
        _ => {},
    }
}

/// Decoding the fields of a record that holds no byte sequence from a cut
/// input goes as decoding them from the whole input went.
pub proof fn lemma_fields_cut(
    fields: Seq<FieldModel>,
    input: Seq<u8>,
    kept: nat,
    position: nat,
    whole_cursor: nat,
    cut_cursor: nat,
)
    requires
        !holds_bytes(fields),
        kept <= input.len(),
    ensures
        cut_short_list(
            fields_decoding(fields, input, position, whole_cursor),
            fields_decoding(fields, input.take(kept as int), position, cut_cursor),
            position,
            kept,
            cut_cursor,
        ),
        fields_decoding(fields, input, position, whole_cursor) matches Ok(list) ==> list.cursor
            == whole_cursor,
    decreases fields, 0nat,
{
    if fields.len() > 0 {
        let front = fields.drop_last();
        assert(!holds_bytes(front)) by {
            if holds_bytes(front) {
                let i = choose|i: int| 0 <= i < front.len() && field_holds_bytes(#[trigger] front[i]);
                assert(field_holds_bytes(fields[i]));
            }
        }
        assert(!field_holds_bytes(fields.last()));
        lemma_fields_cut(front, input, kept, position, whole_cursor, cut_cursor);
        if let Ok(list) = fields_decoding(front, input, position, whole_cursor) {
            lemma_field_cut(fields.last(), input, kept, list.position, whole_cursor, cut_cursor);
        }
    }
}

/// Decoding the items of an array that holds no byte sequence from a cut
/// input goes as decoding them from the whole input went.
pub proof fn lemma_items_cut(
    item: FieldModel,
    input: Seq<u8>,
    kept: nat,
    position: nat,
    whole_cursor: nat,
    cut_cursor: nat,
    count: nat,
)
    requires
        !field_holds_bytes(item),
        kept <= input.len(),
    ensures
        cut_short_list(
            items_decoding(item, input, position, whole_cursor, count),
            items_decoding(item, input.take(kept as int), position, cut_cursor, count),
            position,
            kept,
            cut_cursor,
        ),
        items_decoding(item, input, position, whole_cursor, count) matches Ok(list) ==> list.cursor
            == whole_cursor,
    decreases item, count + 3,
{
    if count > 0 {
        lemma_items_cut(item, input, kept, position, whole_cursor, cut_cursor, (count - 1) as nat);
        if let Ok(list) = items_decoding(item, input, position, whole_cursor, (count - 1) as nat) {
            lemma_field_cut(item, input, kept, list.position, whole_cursor, cut_cursor);
        }
    }
}

/// Too few bytes. Where no field of a schema holds a byte sequence, the
/// bytes of a message cut short of its bit stream fail to decode for want of
/// bits.
pub proof fn law_truncated_message(schema: SchemaModel, value: DatumModel, kept: nat)
    requires
        schema.wf(),
        schema matches SchemaModel::Record { fields } ==> !holds_bytes(fields),
        schema.encoding(value) is Ok,
        kept < pack_bits(schema.encoding(value)->Ok_0.bits).len(),
    ensures
        schema.decoding(wire_bytes(schema.encoding(value)->Ok_0).take(kept as int)) == Err::<
            DatumModel,
            DecodeFailure,
        >(DecodeFailure::NotEnoughBits),
{
    let encoding = schema.encoding(value)->Ok_0;
    let wire = wire_bytes(encoding);
    let cut = wire.take(kept as int);
    lemma_wire_bytes_hold(encoding);
    match (schema, value) {
        (SchemaModel::Record { fields }, DatumModel::Record(values)) => {
            lemma_fields_round_trip(fields, values, wire, 0, wire.len());
            lemma_fields_cut(fields, wire, kept, 0, wire.len(), kept);
        },
        (SchemaModel::Enum { variants }, DatumModel::Enum(ordinal)) => {
            lemma_read_number_cut(wire, kept, 0, bit_length(variants.len()));
        },
        _ => {},
    }
}


/// The count of the bytes of all byte sequences that a value holds, itself
/// or below it.
pub open spec fn tail_length(value: DatumModel) -> nat
    decreases value, 1nat,
{
    match value {
        DatumModel::Bytes(bytes) => bytes.len(),
        DatumModel::Record(values) => tail_lengths(values),
        DatumModel::Array(values) => tail_lengths(values),
        _ => 0,
    }
}

/// The count of the bytes of all byte sequences that the values hold.
pub open spec fn tail_lengths(values: Seq<DatumModel>) -> nat
    decreases values, 0nat,
{
    if values.len() == 0 {
        0
    } else {
        tail_lengths(values.drop_last()) + tail_length(values.last())
    }
}

/// Decoded byte sequence. On every input, a byte-sequence field that decodes
/// gives the bytes in front of the tail cursor, as many as its length prefix
/// holds, and moves the cursor to the first of them. The field may stand
/// anywhere in a tree: the position and the cursor are any.
pub proof fn law_decoded_bytes(field: FieldModel, input: Seq<u8>, position: nat, cursor: nat)
    requires
        field.kind is Bytes,
        cursor <= input.len(),
        payload_decoding(field, input, position, cursor) is Ok,
    ensures
        read_number(input, position, field.payload_width()) is Some,
        ({
            let length = read_number(input, position, field.payload_width())->Some_0;
            let decoded = payload_decoding(field, input, position, cursor)->Ok_0;
            &&& length <= cursor
            &&& decoded.value == DatumModel::Bytes(input.subrange(cursor - length, cursor as int))
            &&& decoded.value->Bytes_0.len() == length
            &&& decoded.cursor == cursor - length
            &&& decoded.position == position + field.payload_width()
        }),
{
}

/// Tail cursor. On every input, decoding a value moves the tail cursor
/// towards the front by the count of the bytes of the byte sequences that the
/// value holds.
pub proof fn law_cursor_tracks_bytes(field: FieldModel, input: Seq<u8>, position: nat, cursor: nat)
    requires
        cursor <= input.len(),
    ensures
        field_decoding(field, input, position, cursor) matches Ok(decoded) ==> decoded.cursor
            + tail_length(decoded.value) == cursor,
        payload_decoding(field, input, position, cursor) matches Ok(decoded) ==> decoded.cursor
            + tail_length(decoded.value) == cursor,
        payload_decoding(field, input, position + 1, cursor) matches Ok(decoded)
            ==> decoded.cursor + tail_length(decoded.value) == cursor,
    decreases field, 1nat,
{
    let width = field.payload_width();
    match field.kind {
        KindModel::Record { fields } => {
            lemma_fields_cursor(fields, input, position, cursor);
            lemma_fields_cursor(fields, input, position + 1, cursor);
        },
        KindModel::Array { items, .. } => {
            if let Some(length) = read_number(input, position, width) {
                lemma_items_cursor(*items, input, position + width, cursor, length);
            }
            if let Some(length) = read_number(input, position + 1, width) {
                lemma_items_cursor(*items, input, position + 1 + width, cursor, length);
            }
        },
        _ => {},
    }
}

/// Decoding the fields of a record moves the tail cursor by the bytes that
/// their values hold.
pub proof fn lemma_fields_cursor(
    fields: Seq<FieldModel>,
    input: Seq<u8>,
    position: nat,
    cursor: nat,
)
    requires
        cursor <= input.len(),
    ensures
        fields_decoding(fields, input, position, cursor) matches Ok(list) ==> list.cursor
            + tail_lengths(list.values) == cursor && list.values.len() == fields.len(),
    decreases fields, 0nat,
{
    if fields.len() > 0 {
        lemma_fields_cursor(fields.drop_last(), input, position, cursor);
        if let Ok(front) = fields_decoding(fields.drop_last(), input, position, cursor) {
            law_cursor_tracks_bytes(fields.last(), input, front.position, front.cursor);
            if let Ok(back) = field_decoding(fields.last(), input, front.position, front.cursor) {
                assert(front.values.push(back.value).drop_last() =~= front.values);
            }
        }
    }
}

/// Decoding the items of an array moves the tail cursor by the bytes that
/// the items hold.
pub proof fn lemma_items_cursor(
    item: FieldModel,
    input: Seq<u8>,
    position: nat,
    cursor: nat,
    count: nat,
)
    requires
        cursor <= input.len(),
    ensures
        items_decoding(item, input, position, cursor, count) matches Ok(list) ==> list.cursor
            + tail_lengths(list.values) == cursor && list.values.len() == count,
    decreases item, count + 3,
{
    if count > 0 {
        lemma_items_cursor(item, input, position, cursor, (count - 1) as nat);
        if let Ok(front) = items_decoding(item, input, position, cursor, (count - 1) as nat) {
            law_cursor_tracks_bytes(item, input, front.position, front.cursor);
            if let Ok(back) = field_decoding(item, input, front.position, front.cursor) {
                assert(front.values.push(back.value).drop_last() =~= front.values);
            }
        }
    }
}

/// Where the fields of a record decode, every first part of them decodes to
/// the first part of the values, and the field behind it decodes, from where
/// the first part stopped, to its own value.
pub proof fn lemma_fields_decoding_prefix(
    fields: Seq<FieldModel>,
    input: Seq<u8>,
    position: nat,
    cursor: nat,
    n: int,
)
    requires
        0 <= n < fields.len(),
        fields_decoding(fields, input, position, cursor) is Ok,
    ensures
        fields_decoding(fields, input, position, cursor)->Ok_0.values.len() == fields.len(),
        fields_decoding(fields.take(n), input, position, cursor) is Ok,
        ({
            let whole = fields_decoding(fields, input, position, cursor)->Ok_0;
            let front = fields_decoding(fields.take(n), input, position, cursor)->Ok_0;
            &&& front.values == whole.values.take(n)
            &&& field_decoding(fields[n], input, front.position, front.cursor) matches Ok(decoded)
                && decoded.value == whole.values[n]
        }),
    decreases fields.len(),
{
    let whole = fields_decoding(fields, input, position, cursor)->Ok_0;
    let rest = fields.drop_last();
    let before = fields_decoding(rest, input, position, cursor)->Ok_0;
    let last = field_decoding(fields.last(), input, before.position, before.cursor)->Ok_0;
    assert(whole.values == before.values.push(last.value));
    if n == fields.len() - 1 {
        assert(fields.take(n) =~= rest);
        if rest.len() > 0 {
            lemma_fields_decoding_prefix(rest, input, position, cursor, 0);
        }
        assert(whole.values.take(n) =~= before.values);
    } else {
        lemma_fields_decoding_prefix(rest, input, position, cursor, n);
        assert(rest.take(n) =~= fields.take(n));
        assert(before.values.take(n) =~= whole.values.take(n));
    }
}

/// Length prefix and tail cursor. On every input that decodes as a record,
/// the value of a byte-sequence field that is present is the bytes in front
/// of the tail cursor, as many as the length prefix of the field holds in the
/// bit stream; the cursor stands as many bytes in front of the end of the
/// input as the byte sequences of the fields before hold.
pub proof fn law_decoded_bytes_in_record(fields: Seq<FieldModel>, input: Seq<u8>, n: int)
    requires
        0 <= n < fields.len(),
        fields[n].kind is Bytes,
        fields_decoding(fields, input, 0, input.len()) is Ok,
        !(fields_decoding(fields, input, 0, input.len())->Ok_0.values[n] is Null),
    ensures
        fields_decoding(fields.take(n), input, 0, input.len()) is Ok,
        ({
            let values = fields_decoding(fields, input, 0, input.len())->Ok_0.values;
            let front = fields_decoding(fields.take(n), input, 0, input.len())->Ok_0;
            let cursor = input.len() - tail_lengths(values.take(n));
            let presence = if fields[n].nullable { 1nat } else { 0nat };
            let length = read_number(
                input,
                front.position + presence,
                fields[n].payload_width(),
            );
            &&& front.cursor == cursor
            &&& length is Some
            &&& length->Some_0 <= cursor
            &&& values[n] == DatumModel::Bytes(
                input.subrange(cursor - length->Some_0, cursor as int),
            )
            &&& values[n]->Bytes_0.len() == length->Some_0
        }),
{
    lemma_fields_decoding_prefix(fields, input, 0, input.len(), n);
    lemma_fields_cursor(fields.take(n), input, 0, input.len());
    let front = fields_decoding(fields.take(n), input, 0, input.len())->Ok_0;
    if fields[n].nullable {
        law_decoded_bytes(fields[n], input, front.position + 1, front.cursor);
    } else {
        law_decoded_bytes(fields[n], input, front.position, front.cursor);
    }
}

} // verus!
