use quops::field::{ArrayField, BooleanField, BytesField, EnumField, Field, IntField, RecordField};
use quops::schema::{EnumSchema, RecordSchema};
use quops::utils::{
    camel_to_snake_case, has_bytes_field, snake_to_camel_case, valid_types_for_range,
    validate_enum_schema, validate_field_type, validate_record_schema, SchemaParseError, StructField,
    TypeHelper,
};

#[test]
fn snake_case_becomes_camel_case() {
    assert_eq!(snake_to_camel_case("turn_duration"), "turnDuration");
    assert_eq!(snake_to_camel_case("allow_hyphens_and_apostrophes"), "allowHyphensAndApostrophes");
    assert_eq!(snake_to_camel_case("id"), "id");
    assert_eq!(snake_to_camel_case(""), "");
    assert_eq!(snake_to_camel_case("a__b"), "aB");
    assert_eq!(snake_to_camel_case("_a"), "A");
    assert_eq!(snake_to_camel_case("a_"), "a");
    assert_eq!(snake_to_camel_case("a_1"), "a1");
}

#[test]
fn camel_case_becomes_snake_case() {
    assert_eq!(camel_to_snake_case("turnDuration"), "turn_duration");
    assert_eq!(camel_to_snake_case("allowHyphensAndApostrophes"), "allow_hyphens_and_apostrophes");
    assert_eq!(camel_to_snake_case("id"), "id");
    assert_eq!(camel_to_snake_case(""), "");
    assert_eq!(camel_to_snake_case("Abc"), "abc");
    assert_eq!(camel_to_snake_case("aBC"), "a_b_c");
    assert_eq!(camel_to_snake_case("a1B_c"), "a1_b_c");
}

#[test]
fn name_mapping_goes_both_ways() {
    for name in ["language", "game_mode", "regen_challenge_difficulty", "max_lives"] {
        assert_eq!(camel_to_snake_case(&snake_to_camel_case(name)), name);
    }
}

#[test]
fn valid_types_are_the_narrowest_and_the_wider_ones() {
    assert_eq!(
        valid_types_for_range(&(0..=255), "f").unwrap(),
        vec!["u8", "u16", "u32", "u64", "u128", "i16", "i32", "i64", "i128"]
    );
    assert_eq!(valid_types_for_range(&(-128..=127), "f").unwrap(), vec!["i8", "i16", "i32", "i64", "i128"]);
    assert_eq!(
        valid_types_for_range(&(0..=256), "f").unwrap(),
        vec!["u16", "u32", "u64", "u128", "i32", "i64", "i128"]
    );
    assert_eq!(valid_types_for_range(&(-129..=127), "f").unwrap(), vec!["i16", "i32", "i64", "i128"]);
    assert_eq!(
        valid_types_for_range(&(0..=65536), "f").unwrap(),
        vec!["u32", "u64", "u128", "i64", "i128"]
    );
    assert_eq!(valid_types_for_range(&(-1..=65536), "f").unwrap(), vec!["i32", "i64", "i128"]);
    assert_eq!(valid_types_for_range(&(0..=4294967296), "f").unwrap(), vec!["u64", "u128", "i128"]);
    assert_eq!(valid_types_for_range(&(-1..=4294967296), "f").unwrap(), vec!["i64", "i128"]);
    assert!(valid_types_for_range(&(-1..=(u64::MAX as i128)), "f").is_err());
    assert!(valid_types_for_range(&((i64::MIN as i128 - 1)..=0), "f").is_err());
}

#[test]
fn bytes_are_found_below_records_and_arrays() {
    let int = || Field::Int(IntField::new("i", None, None, false).unwrap());
    let bytes = || Field::Bytes(BytesField::new("b", None, false));
    assert!(!has_bytes_field(&vec![]));
    assert!(!has_bytes_field(&vec![int(), Field::Boolean(BooleanField::new("t", false))]));
    assert!(has_bytes_field(&vec![int(), bytes()]));
    assert!(has_bytes_field(&vec![Field::Array(ArrayField::new("a", 3, bytes(), false))]));
    assert!(!has_bytes_field(&vec![Field::Array(ArrayField::new("a", 3, int(), false))]));
    assert!(has_bytes_field(&vec![Field::Record(RecordField::new("r", vec![int(), bytes()], false))]));
    assert!(!has_bytes_field(&vec![Field::Record(RecordField::new("r", vec![int()], false))]));
}

#[test]
fn host_types_render_as_text() {
    let plain = TypeHelper::new("u8");
    assert_eq!(plain.get_type(), Some("u8".to_string()));
    assert!(plain.inner_type().is_none());
    assert_eq!(plain.full_type(), "u8");
    let nested = TypeHelper::generic("Option", TypeHelper::generic("Vec", TypeHelper::new("u8")));
    assert_eq!(nested.get_type(), Some("Option".to_string()));
    assert_eq!(nested.inner_type().unwrap().full_type(), "Vec<u8>");
    assert_eq!(nested.full_type(), "Option<Vec<u8>>");
    let path = TypeHelper::Path { segments: 2, ident: "std".to_string(), argument: None };
    assert_eq!(path.get_type(), None);
    let other = TypeHelper::Other { text: "& str".to_string() };
    assert_eq!(other.get_type(), None);
    assert_eq!(other.full_type(), "& str");
}

#[test]
fn field_types_are_held_to_the_schema() {
    let int = Field::Int(IntField::new("x", Some(0), Some(300), false).unwrap());
    assert!(validate_field_type(&int, &TypeHelper::new("u16")).is_ok());
    assert!(validate_field_type(&int, &TypeHelper::new("i32")).is_ok());
    assert!(validate_field_type(&int, &TypeHelper::new("u8")).is_err());
    assert!(validate_field_type(&int, &TypeHelper::new("i16")).is_err());
    assert!(validate_field_type(&int, &TypeHelper::generic("Option", TypeHelper::new("u16"))).is_err());
    let optional = Field::Int(IntField::new("x", Some(0), Some(300), true).unwrap());
    assert!(validate_field_type(&optional, &TypeHelper::generic("Option", TypeHelper::new("u16"))).is_ok());
    assert!(validate_field_type(&optional, &TypeHelper::new("u16")).is_err());
    let unbounded = Field::Int(IntField::new("x", None, None, false).unwrap());
    assert!(validate_field_type(&unbounded, &TypeHelper::new("i32")).is_ok());
    assert!(validate_field_type(&unbounded, &TypeHelper::new("u32")).is_err());

    let truth = Field::Boolean(BooleanField::new("t", false));
    assert!(validate_field_type(&truth, &TypeHelper::new("bool")).is_ok());
    assert!(validate_field_type(&truth, &TypeHelper::new("u8")).is_err());
    let maybe = Field::Boolean(BooleanField::new("t", true));
    assert!(validate_field_type(&maybe, &TypeHelper::generic("Option", TypeHelper::new("bool"))).is_ok());
    assert!(validate_field_type(&maybe, &TypeHelper::new("bool")).is_err());

    let bytes = Field::Bytes(BytesField::new("b", Some(3), false));
    let vec_u8 = || TypeHelper::generic("Vec", TypeHelper::new("u8"));
    assert!(validate_field_type(&bytes, &vec_u8()).is_ok());
    assert!(validate_field_type(&bytes, &TypeHelper::generic("Vec", TypeHelper::new("u16"))).is_err());
    let maybe_bytes = Field::Bytes(BytesField::new("b", Some(3), true));
    assert!(validate_field_type(&maybe_bytes, &TypeHelper::generic("Option", vec_u8())).is_ok());
    assert!(validate_field_type(&maybe_bytes, &vec_u8()).is_err());

    let item = || Field::Int(IntField::new("i", Some(0), Some(3), false).unwrap());
    let array = Field::Array(ArrayField::new("a", 7, item(), false));
    assert!(validate_field_type(&array, &vec_u8()).is_ok());
    assert!(validate_field_type(&array, &TypeHelper::new("u8")).is_err());
    assert!(validate_field_type(&array, &TypeHelper::generic("Vec", TypeHelper::new("bool"))).is_err());
    let maybe_array = Field::Array(ArrayField::new("a", 7, item(), true));
    assert!(validate_field_type(&maybe_array, &TypeHelper::generic("Option", vec_u8())).is_ok());
    assert!(validate_field_type(&maybe_array, &vec_u8()).is_err());

    let variant = Field::Enum(EnumField::new("e", 3, false));
    assert!(validate_field_type(&variant, &TypeHelper::new("Anything")).is_ok());
    let record = Field::Record(RecordField::new("r", vec![item()], false));
    assert!(validate_field_type(&record, &TypeHelper::new("Anything")).is_ok());
}

fn record_schema() -> RecordSchema {
    let mut schema = RecordSchema::new(Vec::new());
    schema.push_field(Field::Int(IntField::new("turnDuration", Some(0), Some(300), false).unwrap())).unwrap();
    schema.push_field(Field::Boolean(BooleanField::new("allowHyphens", false))).unwrap();
    schema
}

fn host(fields: &[(&str, &str)]) -> Vec<StructField> {
    fields.iter().map(|(name, ty)| StructField { name: name.to_string(), ty: TypeHelper::new(ty) }).collect()
}

#[test]
fn structure_must_mirror_the_record() {
    let schema = record_schema();
    assert!(validate_record_schema(&schema, &host(&[("turn_duration", "u16"), ("allow_hyphens", "bool")])).is_ok());
    assert!(validate_record_schema(&schema, &host(&[("allow_hyphens", "bool"), ("turn_duration", "u16")])).is_ok());
    assert!(validate_record_schema(&schema, &host(&[("turn_duration", "u16")])).is_err());
    assert!(validate_record_schema(
        &schema,
        &host(&[("turn_duration", "u16"), ("allow_hyphens", "bool"), ("extra", "u8")])
    )
    .is_err());
    assert!(validate_record_schema(&schema, &host(&[("turn_duration", "u8"), ("allow_hyphens", "bool")])).is_err());
    assert!(validate_record_schema(&schema, &host(&[("turnDuration", "u16"), ("allow_hyphens", "bool")])).is_ok());
}

#[test]
fn enumeration_must_have_the_variants_of_the_schema() {
    let schema = EnumSchema { variants: vec!["A".to_string(), "B".to_string(), "C".to_string()] };
    let names = |list: &[&str]| list.iter().map(|name| name.to_string()).collect::<Vec<_>>();
    assert!(validate_enum_schema(&schema, &names(&["A", "B", "C"])).is_ok());
    assert!(validate_enum_schema(&schema, &names(&["C", "A", "B"])).is_ok());
    assert!(validate_enum_schema(&schema, &names(&["A", "B"])).is_err());
    assert!(validate_enum_schema(&schema, &names(&["A", "B", "C", "D"])).is_err());
    assert!(validate_enum_schema(&schema, &names(&["A", "B", "D"])).is_err());
}

#[test]
fn schema_parse_errors_describe_themselves() {
    assert_eq!(
        SchemaParseError::NoAttribute("missing".to_string()).describe(),
        "Failed to parse #[schema(...)] attribute: missing"
    );
    assert_eq!(
        SchemaParseError::FileNotFound("a/b.quops".to_string()).describe(),
        "Schema file not found: a/b.quops"
    );
    assert_eq!(SchemaParseError::ParseError("bad".to_string()).describe(), "Failed to parse schema: bad");
}
