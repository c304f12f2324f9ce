use quops::field::{
    ArrayField, BooleanField, BytesField, EnumField, Field, FieldTrait, IntField, RecordField,
};

#[test]
fn bounded_int_width_covers_the_span() {
    let field = Field::Int(IntField::new("x", Some(10), Some(13), false).unwrap());
    assert_eq!(field.bits(), 2);
    assert_eq!(field.payload_bits(), 2);
    let field = Field::Int(IntField::new("x", Some(10), Some(13), true).unwrap());
    assert_eq!(field.bits(), 3);
    assert_eq!(field.payload_bits(), 2);
    let field = Field::Int(IntField::new("x", Some(0), Some(300), false).unwrap());
    assert_eq!(field.bits(), 9);
    let field = Field::Int(IntField::new("x", Some(7), Some(7), false).unwrap());
    assert_eq!(field.bits(), 0);
    let field = Field::Int(IntField::new("x", Some(i32::MIN), Some(i32::MAX), true).unwrap());
    assert_eq!(field.bits(), 33);
}

#[test]
fn int_without_both_bounds_reserves_the_width_tag() {
    assert_eq!(Field::Int(IntField::new("x", None, None, false).unwrap()).bits(), 5);
    assert_eq!(Field::Int(IntField::new("x", Some(3), None, false).unwrap()).bits(), 5);
    assert_eq!(Field::Int(IntField::new("x", None, Some(3), true).unwrap()).bits(), 6);
}

#[test]
fn int_with_bounds_out_of_order_is_refused() {
    assert_eq!(
        IntField::new("x", Some(4), Some(3), false),
        Err("Minimum value cannot be greater than maximum value".to_string())
    );
    assert!(IntField::new("x", Some(3), Some(3), false).is_ok());
}

#[test]
fn int_keeps_its_bounds() {
    let field = IntField::new("x", Some(-2), Some(9), false).unwrap();
    assert_eq!(field.min, Some(-2));
    assert_eq!(field.max, Some(9));
    assert_eq!(field.min_bound(), Some(-2));
    assert_eq!(field.max_bound(), Some(9));
}

#[test]
fn boolean_is_one_bit() {
    assert_eq!(Field::Boolean(BooleanField::new("b", false)).bits(), 1);
    assert_eq!(Field::Boolean(BooleanField::new("b", true)).bits(), 2);
}

#[test]
fn bytes_width_covers_the_longest_length() {
    assert_eq!(Field::Bytes(BytesField::new("b", Some(15), false)).bits(), 4);
    assert_eq!(Field::Bytes(BytesField::new("b", Some(16), false)).bits(), 5);
    assert_eq!(Field::Bytes(BytesField::new("b", Some(256), true)).bits(), 10);
    assert_eq!(Field::Bytes(BytesField::new("b", Some(0), false)).bits(), 0);
    assert_eq!(Field::Bytes(BytesField::new("b", None, false)).bits(), 5);
    assert_eq!(Field::Bytes(BytesField::new("b", Some(u32::MAX), false)).bits(), 32);
    assert_eq!(BytesField::new("b", Some(15), false).longest(), Some(15));
}

#[test]
fn enum_width_covers_the_variant_count() {
    assert_eq!(Field::Enum(EnumField::new("e", 0, false)).bits(), 0);
    assert_eq!(Field::Enum(EnumField::new("e", 1, false)).bits(), 1);
    assert_eq!(Field::Enum(EnumField::new("e", 3, false)).bits(), 2);
    assert_eq!(Field::Enum(EnumField::new("e", 4, false)).bits(), 3);
    assert_eq!(Field::Enum(EnumField::new("e", 255, true)).bits(), 9);
    assert_eq!(EnumField::new("e", 5, false).variant_count(), 5);
}

#[test]
fn record_width_is_the_sum_of_its_fields() {
    let fields = vec![
        Field::Int(IntField::new("a", Some(0), Some(300), true).unwrap()),
        Field::Boolean(BooleanField::new("b", false)),
        Field::Bytes(BytesField::new("c", Some(15), false)),
    ];
    assert_eq!(Field::Record(RecordField::new("r", fields.clone(), false)).bits(), 15);
    assert_eq!(Field::Record(RecordField::new("r", fields, true)).bits(), 16);
    assert_eq!(Field::Record(RecordField::new("r", Vec::new(), false)).bits(), 0);
}

#[test]
fn array_width_is_that_of_its_length_prefix() {
    let item = || Field::Int(IntField::new("i", Some(0), Some(3), false).unwrap());
    assert_eq!(Field::Array(ArrayField::new("a", 7, item(), false)).bits(), 3);
    assert_eq!(Field::Array(ArrayField::new("a", 16, item(), true)).bits(), 6);
    assert_eq!(Field::Array(ArrayField::new("a", u32::MAX, item(), false)).bits(), 5);
    let array = ArrayField::new("a", 7, item(), false);
    assert_eq!(array.max_items(), 7);
    assert_eq!(array.item_field(), &item());
}

#[test]
fn field_tells_name_nullability_and_kind() {
    let int = Field::Int(IntField::new("turnDuration", Some(0), Some(3), true).unwrap());
    assert_eq!(int.name(), "turnDuration");
    assert!(int.nullable());
    assert!(int.is_primitive());
    assert!(Field::Boolean(BooleanField::new("b", false)).is_primitive());
    assert!(Field::Bytes(BytesField::new("b", None, false)).is_primitive());
    assert!(Field::Enum(EnumField::new("e", 2, false)).is_primitive());
    let record = Field::Record(RecordField::new("r", vec![int.clone()], false));
    assert_eq!(record.name(), "r");
    assert!(!record.nullable());
    assert!(!record.is_primitive());
    assert!(!Field::Array(ArrayField::new("a", 3, int, false)).is_primitive());
}

#[test]
fn copies_are_equal_to_what_they_copy() {
    let int = Field::Int(IntField::new("x", Some(0), Some(3), true).unwrap());
    let record = Field::Record(RecordField::new(
        "r",
        vec![int.clone(), Field::Array(ArrayField::new("a", 9, int.clone(), false))],
        true,
    ));
    assert_eq!(record.clone(), record);
    assert_eq!(record.duplicate(), record);
    assert_eq!(int.clone().bits(), 3);
}

#[test]
fn default_fields_are_empty() {
    let int = IntField::default();
    assert_eq!((int.min, int.max), (None, None));
    assert_eq!(Field::Int(int).bits(), 0);
    assert_eq!(Field::Boolean(BooleanField::default()).bits(), 0);
    assert_eq!(BytesField::default().max_length, None);
    assert_eq!(EnumField::default(), EnumField::new("", 0, false));
    assert_eq!(RecordField::default(), RecordField::new("", Vec::new(), false));
    assert_eq!(Field::Record(RecordField::default()).name(), "");
}
