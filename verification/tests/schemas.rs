use quops::datum::Datum;
use quops::errors::EncodeError;
use quops::field::{Field, FieldTrait, IntField};
use quops::json::{parse_json, Json};
use quops::schema::{dependency_names, RecordSchema, Schema};

fn text(value: &str) -> Json {
    Json::String(value.to_string())
}

fn number(value: i64) -> Json {
    Json::Number { signed: Some(value), unsigned: if value >= 0 { Some(value as u64) } else { None } }
}

fn object(members: Vec<(&str, Json)>) -> Json {
    Json::Object(members.into_iter().map(|(key, value)| (key.to_string(), value)).collect())
}

#[test]
fn json_text_becomes_a_document() {
    let document = parse_json(r#"{"a": [1, -2, 1.5, true, null, "x"], "b": {"c": 18446744073709551615}}"#).unwrap();
    let expected = object(vec![
        (
            "a",
            Json::Array(vec![
                number(1),
                number(-2),
                Json::Number { signed: None, unsigned: None },
                Json::Bool(true),
                Json::Null,
                text("x"),
            ]),
        ),
        ("b", object(vec![("c", Json::Number { signed: None, unsigned: Some(u64::MAX) })])),
    ]);
    assert_eq!(document, expected);
    assert_eq!(parse_json("{"), None);
    assert_eq!(parse_json(""), None);
    assert_eq!(parse_json("\"int\""), Some(text("int")));
}

#[test]
fn json_members_are_found_by_name() {
    let document = object(vec![("type", text("int")), ("min", number(3)), ("nullable", Json::Bool(true))]);
    assert_eq!(document.get("type").and_then(|json| json.as_str()), Some("int"));
    assert_eq!(document.get("min").and_then(|json| json.as_i64()), Some(3));
    assert_eq!(document.get("min").and_then(|json| json.as_u64()), Some(3));
    assert_eq!(document.get("nullable").and_then(|json| json.as_bool()), Some(true));
    assert!(document.get("max").is_none());
    assert!(text("x").get("type").is_none());
    assert!(document.as_object().is_some());
    assert!(document.as_array().is_none());
    assert_eq!(Json::Array(vec![Json::Null]).as_array().map(|items| items.len()), Some(1));
}

#[test]
fn fields_keep_the_order_of_the_document() {
    let schema = Schema::parse(
        r#"{"type": "record", "fields": {"zeta": "bool", "alpha": "int", "mid": "bytes"}}"#,
        Vec::new(),
    )
    .unwrap();
    let Schema::Record(record) = schema else { panic!("a record schema") };
    let names: Vec<&str> = record.fields().iter().map(|field| field.name()).collect();
    assert_eq!(names, vec!["zeta", "alpha", "mid"]);
    assert_eq!(record.bits(), 11);
}

#[test]
fn field_specifications_are_read_by_kind() {
    let schema = RecordSchema::new(Vec::new());
    let int = schema
        .parse_field("x", &object(vec![("type", text("int")), ("min", number(0)), ("max", number(300))]))
        .unwrap();
    assert_eq!(int, Field::Int(IntField::new("x", Some(0), Some(300), false).unwrap()));
    let nullable = schema
        .parse_field("x", &object(vec![("type", text("bool")), ("nullable", Json::Bool(true))]))
        .unwrap();
    assert_eq!(nullable.bits(), 2);
    assert!(nullable.nullable());
    let bytes = schema
        .parse_field("notes", &object(vec![("type", text("bytes")), ("maxLength", number(256))]))
        .unwrap();
    assert_eq!(bytes.bits(), 9);
    let array = schema
        .parse_field(
            "tags",
            &object(vec![
                ("type", text("array")),
                ("maxLength", number(16)),
                ("items", object(vec![("type", text("int")), ("min", number(0)), ("max", number(99))])),
            ]),
        )
        .unwrap();
    assert_eq!(array.bits(), 5);
    assert!(!array.is_primitive());
    let unbounded = schema
        .parse_field("tags", &object(vec![("type", text("array")), ("items", text("bool"))]))
        .unwrap();
    assert_eq!(unbounded.bits(), 5);
    assert_eq!(schema.parse_field("n", &text("int")).unwrap().bits(), 5);
    assert_eq!(schema.parse_field("n", &text("bool")).unwrap().bits(), 1);
    assert_eq!(schema.parse_field("n", &text("bytes")).unwrap().bits(), 5);
}

#[test]
fn field_specifications_that_describe_no_field_are_refused() {
    let schema = RecordSchema::new(Vec::new());
    assert!(schema.parse_field("x", &text("array")).is_err());
    assert!(schema.parse_field("x", &text("Unknown")).is_err());
    assert!(schema.parse_field("x", &object(vec![("min", number(0))])).is_err());
    assert!(schema.parse_field("x", &object(vec![("type", number(0))])).is_err());
    assert!(schema.parse_field("x", &object(vec![("type", text("array"))])).is_err());
    assert!(schema
        .parse_field("x", &object(vec![("type", text("int")), ("min", number(5)), ("max", number(4))]))
        .is_err());
    assert!(schema.parse_field("x", &object(vec![("type", text("Unknown"))])).is_err());
    assert!(schema.parse_field("x", &number(3)).is_err());
    assert!(schema.parse_field("x", &Json::Null).is_err());
}

#[test]
fn schema_documents_that_describe_no_schema_are_refused() {
    assert!(Schema::parse("not json", Vec::new()).is_err());
    assert!(Schema::parse(r#"{"fields": {}}"#, Vec::new()).is_err());
    assert!(Schema::parse(r#"{"type": "union"}"#, Vec::new()).is_err());
    assert!(Schema::parse(r#"{"type": "record"}"#, Vec::new()).is_err());
    assert!(Schema::parse(r#"{"type": "record", "fields": []}"#, Vec::new()).is_err());
    assert!(Schema::parse(r#"{"type": "record", "fields": {"x": "float"}}"#, Vec::new()).is_err());
    assert!(Schema::parse(r#"{"type": "enum"}"#, Vec::new()).is_err());
    assert!(Schema::parse(r#"{"type": "enum", "variants": ["A", 1]}"#, Vec::new()).is_err());
    assert!(Schema::parse(r#"{"type": "record", "fields": {}}"#, Vec::new()).is_ok());
    assert!(Schema::parse(r#"{"type": "enum", "variants": []}"#, Vec::new()).is_err());
    assert!(Schema::parse(r#"{"type": "enum", "variants": ["A"]}"#, Vec::new()).is_ok());
}

#[test]
fn enumeration_of_more_than_255_variants_is_refused() {
    let variants = |count: usize| {
        let names: Vec<String> = (0..count).map(|index| format!("\"V{}\"", index)).collect();
        format!("{{\"type\": \"enum\", \"variants\": [{}]}}", names.join(", "))
    };
    assert!(Schema::parse(&variants(255), Vec::new()).is_ok());
    assert!(Schema::parse(&variants(256), Vec::new()).is_err());
}

#[test]
fn a_field_name_cannot_occur_twice() {
    let mut schema = RecordSchema::new(Vec::new());
    assert!(schema.push_field(Field::Int(IntField::new("x", None, None, false).unwrap())).is_ok());
    assert!(schema.push_field(Field::Int(IntField::new("x", Some(0), Some(1), false).unwrap())).is_err());
    assert_eq!(schema.fields().len(), 1);
    let document = object(vec![
        ("type", text("record")),
        ("fields", object(vec![("x", text("int")), ("x", text("bool"))])),
    ]);
    assert!(Schema::from_document(&document, Vec::new()).is_err());
}

#[test]
fn dependencies_become_fields() {
    let language = Schema::parse(r#"{"type": "enum", "variants": ["English", "French"]}"#, Vec::new()).unwrap();
    let stats = Schema::parse(
        r#"{"type": "record", "fields": {"totalTime": {"type": "int", "min": 0, "max": 7}, "won": "bool"}}"#,
        Vec::new(),
    )
    .unwrap();
    let schema = Schema::parse(
        r#"{"type": "record", "dependencies": ["Language", "Stats"], "fields": {
            "language": "Language",
            "stats": {"type": "Stats", "nullable": true}}}"#,
        vec![("Language".to_string(), language), ("Stats".to_string(), stats)],
    )
    .unwrap();
    let Schema::Record(record) = &schema else { panic!("a record schema") };
    assert_eq!(record.fields()[0].bits(), 2);
    assert_eq!(record.fields()[1].bits(), 5);
    assert!(matches!(record.fields()[0], Field::Enum(_)));
    assert!(matches!(record.fields()[1], Field::Record(_)));
    let value = Datum::Record(vec![Datum::Enum(1), Datum::Record(vec![Datum::Int(5), Datum::Bool(true)])]);
    let bytes = schema.encode(&value).unwrap();
    // Ordinal 1 in two bits, presence bit, 5 in three bits, truth bit.
    assert_eq!(bytes, vec![0b1_101_1_01]);
    assert_eq!(schema.decode(&bytes).unwrap(), value);
}

#[test]
fn dependency_names_are_read_from_record_documents() {
    let document = parse_json(r#"{"type": "record", "dependencies": ["Language", "GameMode"], "fields": {}}"#).unwrap();
    assert_eq!(dependency_names(&document).unwrap(), vec!["Language".to_string(), "GameMode".to_string()]);
    let document = parse_json(r#"{"type": "record", "fields": {}}"#).unwrap();
    assert_eq!(dependency_names(&document).unwrap(), Vec::<String>::new());
    let document = parse_json(r#"{"type": "record", "dependencies": "Language"}"#).unwrap();
    assert!(dependency_names(&document).is_err());
    let document = parse_json(r#"{"type": "record", "dependencies": [1]}"#).unwrap();
    assert!(dependency_names(&document).is_err());
    let document = parse_json(r#"{"type": "enum", "dependencies": 3, "variants": ["A"]}"#).unwrap();
    assert_eq!(dependency_names(&document).unwrap(), Vec::<String>::new());
}

fn files(list: &[(&str, &str)]) -> Vec<(String, String)> {
    list.iter().map(|(name, text)| (name.to_string(), text.to_string())).collect()
}

#[test]
fn schemas_are_loaded_with_what_they_refer_to() {
    let files = files(&[
        ("Rules", r#"{"type": "record", "dependencies": ["Language", "Round"], "fields": {"language": "Language", "round": "Round"}}"#),
        ("Language", r#"{"type": "enum", "variants": ["English", "French"]}"#),
        ("Round", r#"{"type": "record", "dependencies": ["Language"], "fields": {"spoken": "Language", "won": "bool"}}"#),
    ]);
    let schema = Schema::load(&files, "Rules").unwrap();
    let Schema::Record(record) = &schema else { panic!("a record schema") };
    assert_eq!(record.bits(), 5);
    let value = Datum::Record(vec![Datum::Enum(1), Datum::Record(vec![Datum::Enum(0), Datum::Bool(true)])]);
    assert_eq!(schema.decode(&schema.encode(&value).unwrap()).unwrap(), value);
    assert!(matches!(Schema::load(&files, "Language"), Ok(Schema::Enum(_))));
}

#[test]
fn missing_and_circular_schema_files_are_refused() {
    let missing = files(&[("Rules", r#"{"type": "record", "dependencies": ["Language"], "fields": {}}"#)]);
    assert!(Schema::load(&missing, "Rules").is_err());
    assert!(Schema::load(&missing, "Other").is_err());
    assert!(Schema::load(&Vec::new(), "Rules").is_err());
    let circle = files(&[
        ("A", r#"{"type": "record", "dependencies": ["B"], "fields": {"b": "B"}}"#),
        ("B", r#"{"type": "record", "dependencies": ["A"], "fields": {"a": "A"}}"#),
    ]);
    assert!(Schema::load(&circle, "A").is_err());
    let own = files(&[("A", r#"{"type": "record", "dependencies": ["A"], "fields": {}}"#)]);
    assert!(Schema::load(&own, "A").is_err());
    let broken = files(&[("A", "{")]);
    assert!(Schema::load(&broken, "A").is_err());
}

#[test]
fn a_record_that_is_too_wide_cannot_be_a_field() {
    let mut fields = String::new();
    for index in 0..8 {
        if index > 0 {
            fields.push_str(", ");
        }
        fields.push_str(&format!("\"f{}\": {{\"type\": \"int\", \"min\": -2147483648, \"max\": 2147483647}}", index));
    }
    let wide = Schema::parse(&format!("{{\"type\": \"record\", \"fields\": {{{}}}}}", fields), Vec::new()).unwrap();
    let result = Schema::parse(
        r#"{"type": "record", "dependencies": ["Wide"], "fields": {"wide": "Wide"}}"#,
        vec![("Wide".to_string(), wide)],
    );
    assert!(result.is_err());
}

#[test]
fn a_message_of_another_shape_is_not_supported() {
    let record = Schema::parse(r#"{"type": "record", "fields": {"x": "bool"}}"#, Vec::new()).unwrap();
    assert!(matches!(record.encode(&Datum::Enum(0)), Err(EncodeError::NotSupported(_))));
    assert!(matches!(record.encode(&Datum::Record(vec![Datum::Null])), Err(EncodeError::NotSupported(_))));
    let variant = Schema::parse(r#"{"type": "enum", "variants": ["A"]}"#, Vec::new()).unwrap();
    assert!(matches!(variant.encode(&Datum::Bool(true)), Err(EncodeError::NotSupported(_))));
    assert!(matches!(variant.encode(&Datum::Enum(1)), Err(EncodeError::OutOfBounds(_))));
    assert_eq!(variant.encode(&Datum::Enum(0)).unwrap(), vec![0]);
}

#[test]
fn lengths_that_do_not_fit_their_prefix_are_out_of_bounds() {
    let schema = Schema::parse(
        r#"{"type": "record", "fields": {"b": "bytes", "a": {"type": "array", "maxLength": 5, "items": "bool"}}}"#,
        Vec::new(),
    )
    .unwrap();
    let value = |length: usize, items: usize| {
        Datum::Record(vec![Datum::Bytes(vec![7; length]), Datum::Array(vec![Datum::Bool(true); items])])
    };
    assert!(schema.encode(&value(31, 7)).is_ok());
    assert!(matches!(schema.encode(&value(32, 0)), Err(EncodeError::OutOfBounds(_))));
    assert!(matches!(schema.encode(&value(0, 8)), Err(EncodeError::OutOfBounds(_))));
    let round = value(31, 7);
    assert_eq!(schema.decode(&schema.encode(&round).unwrap()).unwrap(), round);
}

#[test]
fn bounds_and_lengths_are_cut_to_32_bits() {
    let schema = RecordSchema::new(Vec::new());
    let field = schema
        .parse_field(
            "x",
            &object(vec![("type", text("int")), ("min", number(4294967296)), ("max", number(4294967299))]),
        )
        .unwrap();
    assert_eq!(field, Field::Int(IntField::new("x", Some(0), Some(3), false).unwrap()));
    let field = schema
        .parse_field("b", &object(vec![("type", text("bytes")), ("maxLength", number(4294967311))]))
        .unwrap();
    assert_eq!(field.bits(), 4);
    let field = schema
        .parse_field("b", &object(vec![("type", text("bytes")), ("maxLength", number(-1))]))
        .unwrap();
    assert_eq!(field.bits(), 5);
    let field = schema
        .parse_field(
            "x",
            &object(vec![("type", text("int")), ("min", Json::Number { signed: None, unsigned: None })]),
        )
        .unwrap();
    assert_eq!(field.bits(), 5);
}

#[test]
fn a_member_that_describes_no_field_is_named_in_the_error() {
    let error = Schema::parse(r#"{"type": "record", "fields": {"ok": "bool", "bad": "float"}}"#, Vec::new())
        .unwrap_err();
    assert_eq!(error, "Failed to parse field 'bad': Unsupported field type 'float'");
}
