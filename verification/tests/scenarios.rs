use quops::datum::Datum;
use quops::errors::{DecodeError, EncodeError};
use quops::schema::Schema;

fn schema(text: &str) -> Schema {
    Schema::parse(text, Vec::new()).unwrap()
}

#[test]
fn single_enum_encodes_ordinal_in_two_bits() {
    let schema = schema(r#"{"type": "enum", "variants": ["A", "B", "C"]}"#);
    let bytes = schema.encode(&Datum::Enum(1)).unwrap();
    assert_eq!(bytes, vec![0x01]);
    assert_eq!(schema.decode(&bytes).unwrap(), Datum::Enum(1));
}

#[test]
fn bounded_int_encodes_distance_from_min() {
    let schema = schema(r#"{"type": "record", "fields": {"x": {"type": "int", "min": 10, "max": 13}}}"#);
    let value = Datum::Record(vec![Datum::Int(12)]);
    let bytes = schema.encode(&value).unwrap();
    assert_eq!(bytes, vec![0x02]);
    assert_eq!(schema.decode(&bytes).unwrap(), value);
}

#[test]
fn nullable_bounded_int_present() {
    let schema = schema(
        r#"{"type": "record", "fields": {"x": {"type": "int", "min": 10, "max": 13, "nullable": true}}}"#,
    );
    let value = Datum::Record(vec![Datum::Int(11)]);
    let bytes = schema.encode(&value).unwrap();
    assert_eq!(bytes, vec![0x03]);
    assert_eq!(schema.decode(&bytes).unwrap(), value);
}

#[test]
fn nullable_absent_is_one_zero_bit() {
    let schema = schema(
        r#"{"type": "record", "fields": {"x": {"type": "int", "min": 10, "max": 13, "nullable": true}}}"#,
    );
    let value = Datum::Record(vec![Datum::Null]);
    let bytes = schema.encode(&value).unwrap();
    assert_eq!(bytes, vec![0x00]);
    assert_eq!(schema.decode(&bytes).unwrap(), value);
}

#[test]
fn two_bytes_fields_tail_ordering() {
    let schema = schema(
        r#"{"type": "record", "fields": {
            "a": {"type": "bytes", "maxLength": 15},
            "b": {"type": "bytes", "maxLength": 15}}}"#,
    );
    let value = Datum::Record(vec![Datum::Bytes(vec![0xAA]), Datum::Bytes(vec![0xBB, 0xCC])]);
    let bytes = schema.encode(&value).unwrap();
    assert_eq!(bytes, vec![0x21, 0xBB, 0xCC, 0xAA]);
    assert_eq!(schema.decode(&bytes).unwrap(), value);
}

#[test]
fn array_of_bounded_ints() {
    let schema = schema(
        r#"{"type": "record", "fields": {
            "items": {"type": "array", "maxLength": 7, "items": {"type": "int", "min": 0, "max": 3}}}}"#,
    );
    let value = Datum::Record(vec![Datum::Array(vec![Datum::Int(1), Datum::Int(2), Datum::Int(3)])]);
    let bytes = schema.encode(&value).unwrap();
    // Length 3 in three bits, then 1, 2 and 3 in two bits each, least
    // significant bit first: 1,1,0, 1,0, 0,1, 1,1.
    assert_eq!(bytes, vec![0b1100_1011, 0b0000_0001]);
    assert_eq!(schema.decode(&bytes).unwrap(), value);
}

#[test]
fn int_at_min_is_all_zero_and_at_max_all_one() {
    let schema = schema(r#"{"type": "record", "fields": {"x": {"type": "int", "min": -4, "max": 3}}}"#);
    assert_eq!(schema.encode(&Datum::Record(vec![Datum::Int(-4)])).unwrap(), vec![0b000]);
    assert_eq!(schema.encode(&Datum::Record(vec![Datum::Int(3)])).unwrap(), vec![0b111]);
}

#[test]
fn int_outside_bounds_is_out_of_bounds() {
    let schema = schema(r#"{"type": "record", "fields": {"x": {"type": "int", "min": 10, "max": 13}}}"#);
    assert!(matches!(
        schema.encode(&Datum::Record(vec![Datum::Int(14)])),
        Err(EncodeError::OutOfBounds(_))
    ));
    assert!(matches!(
        schema.encode(&Datum::Record(vec![Datum::Int(9)])),
        Err(EncodeError::OutOfBounds(_))
    ));
}

#[test]
fn empty_bytes_and_empty_array() {
    let schema = schema(
        r#"{"type": "record", "fields": {
            "a": {"type": "bytes", "maxLength": 15},
            "b": {"type": "array", "maxLength": 15, "items": "bool"}}}"#,
    );
    let value = Datum::Record(vec![Datum::Bytes(vec![]), Datum::Array(vec![])]);
    let bytes = schema.encode(&value).unwrap();
    assert_eq!(bytes, vec![0x00]);
    assert_eq!(schema.decode(&bytes).unwrap(), value);
}

#[test]
fn enum_variant_zero_is_all_zero() {
    let schema = schema(r#"{"type": "enum", "variants": ["A", "B", "C"]}"#);
    assert_eq!(schema.encode(&Datum::Enum(0)).unwrap(), vec![0x00]);
}

#[test]
fn decode_with_too_few_bytes_is_not_enough_bits() {
    let schema = schema(r#"{"type": "record", "fields": {"x": {"type": "int", "min": 0, "max": 1000}}}"#);
    assert!(matches!(schema.decode(&[0x01]), Err(DecodeError::NotEnoughBits(_))));
    assert!(matches!(schema.decode(&[]), Err(DecodeError::NotEnoughBits(_))));
}

#[test]
fn decode_of_unknown_ordinal_is_out_of_bounds() {
    let schema = schema(r#"{"type": "enum", "variants": ["A", "B", "C"]}"#);
    assert!(matches!(schema.decode(&[0x03]), Err(DecodeError::OutOfBounds(_))));
}

#[test]
fn decode_with_short_tail_is_not_enough_bytes() {
    let schema = schema(r#"{"type": "record", "fields": {"a": {"type": "bytes", "maxLength": 15}}}"#);
    assert!(matches!(schema.decode(&[0x05, 0x01]), Err(DecodeError::NotEnoughBytes(_))));
}

#[test]
fn value_of_another_kind_is_not_supported() {
    let schema = schema(r#"{"type": "record", "fields": {"x": "bool"}}"#);
    assert!(matches!(
        schema.encode(&Datum::Record(vec![Datum::Int(1)])),
        Err(EncodeError::NotSupported(_))
    ));
    assert!(matches!(schema.encode(&Datum::Record(vec![])), Err(EncodeError::NotSupported(_))));
}

#[test]
fn unbounded_int_writes_width_tag_then_digits() {
    let schema = schema(r#"{"type": "record", "fields": {"x": "int"}}"#);
    // 5 has three binary digits: tag 00011 (least significant first: 1,1,0,0,0), then 1,0,1.
    let value = Datum::Record(vec![Datum::Int(5)]);
    let bytes = schema.encode(&value).unwrap();
    assert_eq!(bytes, vec![0b1010_0011]);
    assert_eq!(schema.decode(&bytes).unwrap(), value);
    let zero = Datum::Record(vec![Datum::Int(0)]);
    let bytes = schema.encode(&zero).unwrap();
    assert_eq!(bytes, vec![0x00]);
    assert_eq!(schema.decode(&bytes).unwrap(), zero);
    assert!(matches!(
        schema.encode(&Datum::Record(vec![Datum::Int(-1)])),
        Err(EncodeError::OutOfBounds(_))
    ));
    assert!(matches!(
        schema.encode(&Datum::Record(vec![Datum::Int(0x8000_0000)])),
        Err(EncodeError::OutOfBounds(_))
    ));
}

#[test]
fn message_cut_short_of_its_bit_stream_is_not_enough_bits() {
    let schema = schema(
        r#"{"type": "record", "fields": {
            "a": {"type": "int", "min": 0, "max": 1000},
            "b": {"type": "array", "maxLength": 7, "items": {"type": "int", "min": 0, "max": 255}},
            "c": {"type": "int", "nullable": true}}}"#,
    );
    let value = Datum::Record(vec![
        Datum::Int(999),
        Datum::Array(vec![Datum::Int(1), Datum::Int(200), Datum::Int(3)]),
        Datum::Int(77),
    ]);
    let bytes = schema.encode(&value).unwrap();
    assert_eq!(bytes.len(), 7);
    assert_eq!(schema.decode(&bytes).unwrap(), value);
    for kept in 0..bytes.len() {
        assert!(matches!(schema.decode(&bytes[..kept]), Err(DecodeError::NotEnoughBits(_))));
    }
}

#[test]
fn message_with_bytes_cut_short_may_lack_bytes_first() {
    let schema = schema(
        r#"{"type": "record", "fields": {
            "a": {"type": "bytes", "maxLength": 15},
            "x": {"type": "int", "min": 0, "max": 1000}}}"#,
    );
    let value = Datum::Record(vec![Datum::Bytes(vec![1, 2, 3, 4, 5]), Datum::Int(7)]);
    let bytes = schema.encode(&value).unwrap();
    assert_eq!(bytes.len(), 2 + 5);
    assert!(matches!(schema.decode(&bytes[..1]), Err(DecodeError::NotEnoughBytes(_))));
}

#[test]
fn encoding_twice_gives_the_same_bytes() {
    let text = r#"{"type": "record", "fields": {
        "a": {"type": "bytes", "maxLength": 15},
        "x": {"type": "int", "min": -7, "max": 1000, "nullable": true},
        "y": "int"}}"#;
    let value = Datum::Record(vec![Datum::Bytes(vec![1, 2, 3]), Datum::Int(-7), Datum::Int(12345)]);
    let first = schema(text).encode(&value).unwrap();
    let second = schema(text).encode(&value.clone()).unwrap();
    assert_eq!(first, second);
    // Length 3 in four bits, a presence bit, ten zero bits, the tag 14 in
    // five bits, 12345 in fourteen bits; then the bytes.
    assert_eq!(first, vec![0b0001_0011, 0b0000_0000, 0b1001_0111, 0b0000_0011, 0b11, 1, 2, 3]);
}

#[test]
fn bounded_int_takes_its_payload_width() {
    // Nine bits for 0..=300, then a truth bit that lands in the second byte.
    let schema = schema(
        r#"{"type": "record", "fields": {"x": {"type": "int", "min": 0, "max": 300}, "t": "bool"}}"#,
    );
    let bytes = schema.encode(&Datum::Record(vec![Datum::Int(0), Datum::Bool(true)])).unwrap();
    assert_eq!(bytes, vec![0x00, 0b10]);
}

#[test]
fn unbounded_int_takes_five_bits_and_its_digits() {
    let schema = schema(r#"{"type": "record", "fields": {"x": "int", "t": "bool"}}"#);
    // 8 has four binary digits: the truth bit is bit 9.
    let bytes = schema.encode(&Datum::Record(vec![Datum::Int(8), Datum::Bool(true)])).unwrap();
    assert_eq!(bytes, vec![0b0000_0100, 0b11]);
    // 0 has none: the truth bit is bit 5.
    let bytes = schema.encode(&Datum::Record(vec![Datum::Int(0), Datum::Bool(true)])).unwrap();
    assert_eq!(bytes, vec![0b0010_0000]);
    // The greatest number of 31 bits takes 36 bits.
    let bytes = schema.encode(&Datum::Record(vec![Datum::Int(0x7FFF_FFFF), Datum::Bool(true)])).unwrap();
    assert_eq!(bytes, vec![0xFF, 0xFF, 0xFF, 0xFF, 0b1_1111]);
}

#[test]
fn optional_field_takes_one_bit_more_when_present_and_one_bit_when_absent() {
    let schema = schema(
        r#"{"type": "record", "fields": {
            "x": {"type": "int", "min": 0, "max": 3, "nullable": true},
            "t": "bool"}}"#,
    );
    // Present: presence bit, two payload bits, then the truth bit at bit 3.
    let bytes = schema.encode(&Datum::Record(vec![Datum::Int(0), Datum::Bool(true)])).unwrap();
    assert_eq!(bytes, vec![0b1001]);
    // Absent: one zero bit, then the truth bit at bit 1.
    let bytes = schema.encode(&Datum::Record(vec![Datum::Null, Datum::Bool(true)])).unwrap();
    assert_eq!(bytes, vec![0b10]);
}

#[test]
fn decoded_bytes_have_the_encoded_length() {
    let schema = schema(r#"{"type": "record", "fields": {"a": {"type": "bytes", "maxLength": 15}}}"#);
    for length in 0..=15usize {
        let value = Datum::Record(vec![Datum::Bytes(vec![0x5A; length])]);
        let bytes = schema.encode(&value).unwrap();
        assert_eq!(bytes.len(), 1 + length);
        assert_eq!(bytes[0], length as u8);
        assert_eq!(schema.decode(&bytes).unwrap(), value);
    }
    let too_long = Datum::Record(vec![Datum::Bytes(vec![0; 16])]);
    assert!(matches!(schema.encode(&too_long), Err(EncodeError::OutOfBounds(_))));
}

#[test]
fn trailing_bytes_are_left_alone_without_bytes_fields() {
    let schema = schema(r#"{"type": "record", "fields": {"x": {"type": "int", "min": 10, "max": 13}}}"#);
    assert_eq!(schema.decode(&[0x02, 0xFF, 0xFF]).unwrap(), Datum::Record(vec![Datum::Int(12)]));
}

#[test]
fn decoded_int_above_its_bound_is_out_of_bounds() {
    let schema = schema(r#"{"type": "record", "fields": {"x": {"type": "int", "min": 10, "max": 12}}}"#);
    assert!(matches!(schema.decode(&[0x03]), Err(DecodeError::OutOfBounds(_))));
    assert_eq!(schema.decode(&[0x02]).unwrap(), Datum::Record(vec![Datum::Int(12)]));
}

#[test]
fn records_and_arrays_nest() {
    let schema = schema(
        r#"{"type": "record", "fields": {
            "rows": {"type": "array", "maxLength": 3, "nullable": true,
                     "items": {"type": "array", "maxLength": 3, "items": {"type": "bytes", "maxLength": 3}}}}}"#,
    );
    let value = Datum::Record(vec![Datum::Array(vec![
        Datum::Array(vec![Datum::Bytes(vec![1]), Datum::Bytes(vec![])]),
        Datum::Array(vec![]),
        Datum::Array(vec![Datum::Bytes(vec![2, 3, 4])]),
    ])]);
    let bytes = schema.encode(&value).unwrap();
    assert_eq!(schema.decode(&bytes).unwrap(), value);
    assert_eq!(&bytes[bytes.len() - 4..], &[2, 3, 4, 1]);
    let absent = Datum::Record(vec![Datum::Null]);
    assert_eq!(schema.encode(&absent).unwrap(), vec![0]);
    assert_eq!(schema.decode(&[0]).unwrap(), absent);
}

#[test]
fn refused_number_is_named_with_its_bounds() {
    let schema = schema(r#"{"type": "record", "fields": {"x": {"type": "int", "min": -3, "max": 13}}}"#);
    let Err(EncodeError::OutOfBounds(message)) = schema.encode(&Datum::Record(vec![Datum::Int(14)])) else {
        panic!("a refused number")
    };
    assert_eq!(message, "Value for field 'x' is out of bounds: 14. Expected range: [-3, 13]");
}

#[test]
fn bytes_are_peeled_from_the_end_of_any_input() {
    let schema = schema(
        r#"{"type": "record", "fields": {
            "a": {"type": "bytes", "maxLength": 3},
            "b": {"type": "bytes", "maxLength": 15, "nullable": true}}}"#,
    );
    // Length 1 in two bits, a presence bit, length 2 in four bits; the byte 9
    // belongs to no field.
    let input = [0b0010_1_01, 9, 8, 7, 6];
    assert_eq!(
        schema.decode(&input).unwrap(),
        Datum::Record(vec![Datum::Bytes(vec![6]), Datum::Bytes(vec![8, 7])])
    );
    // A length above the declared one is read as it stands.
    let input = [0b0000_0_11, 3, 2, 1];
    assert_eq!(schema.decode(&input).unwrap(), Datum::Record(vec![Datum::Bytes(vec![3, 2, 1]), Datum::Null]));
}
