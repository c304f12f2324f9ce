use quops::datum::Datum;
use quops::generate::{decode, encode, TypeData, TypeDecl};
use quops::schema::Schema;
use quops::utils::{StructField, TypeHelper};

#[derive(Debug, PartialEq, Clone)]
enum Role {
    Player,
    Leader,
    Moderator,
}

#[derive(Debug, PartialEq, Clone)]
struct Stats {
    total_time: u16,
    won: bool,
}

#[derive(Debug, PartialEq, Clone)]
struct Player {
    id: i16,
    count: i32,
    role: Role,
    nick_name: Vec<u8>,
    note: Option<Vec<u8>>,
    scores: Vec<u8>,
    last_round: Option<Stats>,
    level: Option<u8>,
}

const ROLE_ENCODE: &str = r#"impl ::quops::traits::AsU64 for Role {
fn as_u64(&self) -> Result<u64, ::quops::EncodeError> {
match self {
Role::Player => Ok(0),
Role::Leader => Ok(1),
Role::Moderator => Ok(2),
}
}
}
"#;

impl ::quops::traits::AsU64 for Role {
fn as_u64(&self) -> Result<u64, ::quops::EncodeError> {
match self {
Role::Player => Ok(0),
Role::Leader => Ok(1),
Role::Moderator => Ok(2),
}
}
}

const ROLE_DECODE: &str = r#"impl TryInto<Role> for u8 {
type Error = ::quops::DecodeError;
fn try_into(self) -> Result<Role, Self::Error> {
match self {
0 => Ok(Role::Player),
1 => Ok(Role::Leader),
2 => Ok(Role::Moderator),
_ => Err(::quops::DecodeError::OutOfBounds(format!("Invalid ordinal: {}", self))),
}
}
}
"#;

impl TryInto<Role> for u8 {
type Error = ::quops::DecodeError;
fn try_into(self) -> Result<Role, Self::Error> {
match self {
0 => Ok(Role::Player),
1 => Ok(Role::Leader),
2 => Ok(Role::Moderator),
_ => Err(::quops::DecodeError::OutOfBounds(format!("Invalid ordinal: {}", self))),
}
}
}

const PLAYER_ENCODE: &str = r#"impl ::quops::traits::Encode for Player {
fn encode(&self) -> Result<Vec<u8>, ::quops::EncodeError> {
let total_bytes: usize = ((45 + 2 * self.scores.len() + 7) / 8) + self.nick_name.len();
let mut writer = ::quops::BitWriter::with_capacity(total_bytes);
let mut buffers: Vec<&Vec<u8>> = Vec::new();
::quops::encoder::write_bounded_host(&mut writer, i64::try_from(self.id), -5, 300, 9, "id")?;
::quops::encoder::write_unbounded_host(&mut writer, i64::try_from(self.count), "count")?;
::quops::encoder::write_ordinal(&mut writer, ::quops::traits::AsU64::as_u64(&self.role)?, 3, 2, "role")?;
::quops::encoder::write_length(&mut writer, self.nick_name.len(), Some(15), 4, "nickName")?;
buffers.push(&self.nick_name);
if let Some(value) = (self.note).as_ref() {
::quops::encoder::write_bool(&mut writer, true)?;
::quops::encoder::write_length(&mut writer, (*value).len(), None, 5, "note")?;
buffers.push(&(*value));
} else {
::quops::encoder::write_bool(&mut writer, false)?;
}
::quops::encoder::write_length(&mut writer, self.scores.len(), None, 3, "scores")?;
for item in self.scores.iter() {
::quops::encoder::write_bounded_host(&mut writer, i64::try_from((*item)), 0, 3, 2, "scores")?;
}
if let Some(value) = (self.last_round).as_ref() {
::quops::encoder::write_bool(&mut writer, true)?;
::quops::encoder::write_bounded_host(&mut writer, i64::try_from((*value).total_time), 0, 1000, 10, "totalTime")?;
::quops::encoder::write_bool(&mut writer, (*value).won)?;
} else {
::quops::encoder::write_bool(&mut writer, false)?;
}
if let Some(value) = (self.level).as_ref() {
::quops::encoder::write_bool(&mut writer, true)?;
::quops::encoder::write_bounded_host(&mut writer, i64::try_from((*value)), 1, 8, 3, "level")?;
} else {
::quops::encoder::write_bool(&mut writer, false)?;
}
let mut bin = writer.into_bytes();
for buf in buffers.iter().rev() {
bin.extend_from_slice(buf);
}
Ok(bin)
}
}
"#;

impl ::quops::traits::Encode for Player {
fn encode(&self) -> Result<Vec<u8>, ::quops::EncodeError> {
let total_bytes: usize = ((45 + 2 * self.scores.len() + 7) / 8) + self.nick_name.len();
let mut writer = ::quops::BitWriter::with_capacity(total_bytes);
let mut buffers: Vec<&Vec<u8>> = Vec::new();
::quops::encoder::write_bounded_host(&mut writer, i64::try_from(self.id), -5, 300, 9, "id")?;
::quops::encoder::write_unbounded_host(&mut writer, i64::try_from(self.count), "count")?;
::quops::encoder::write_ordinal(&mut writer, ::quops::traits::AsU64::as_u64(&self.role)?, 3, 2, "role")?;
::quops::encoder::write_length(&mut writer, self.nick_name.len(), Some(15), 4, "nickName")?;
buffers.push(&self.nick_name);
if let Some(value) = (self.note).as_ref() {
::quops::encoder::write_bool(&mut writer, true)?;
::quops::encoder::write_length(&mut writer, (*value).len(), None, 5, "note")?;
buffers.push(&(*value));
} else {
::quops::encoder::write_bool(&mut writer, false)?;
}
::quops::encoder::write_length(&mut writer, self.scores.len(), None, 3, "scores")?;
for item in self.scores.iter() {
::quops::encoder::write_bounded_host(&mut writer, i64::try_from((*item)), 0, 3, 2, "scores")?;
}
if let Some(value) = (self.last_round).as_ref() {
::quops::encoder::write_bool(&mut writer, true)?;
::quops::encoder::write_bounded_host(&mut writer, i64::try_from((*value).total_time), 0, 1000, 10, "totalTime")?;
::quops::encoder::write_bool(&mut writer, (*value).won)?;
} else {
::quops::encoder::write_bool(&mut writer, false)?;
}
if let Some(value) = (self.level).as_ref() {
::quops::encoder::write_bool(&mut writer, true)?;
::quops::encoder::write_bounded_host(&mut writer, i64::try_from((*value)), 1, 8, 3, "level")?;
} else {
::quops::encoder::write_bool(&mut writer, false)?;
}
let mut bin = writer.into_bytes();
for buf in buffers.iter().rev() {
bin.extend_from_slice(buf);
}
Ok(bin)
}
}

const PLAYER_DECODE: &str = r#"impl ::quops::traits::Decode for Player {
fn decode(bytes: &[u8]) -> Result<Self, ::quops::DecodeError> {
let mut reader = ::quops::BitReader::new(bytes);
let mut buffers_end_index: usize = bytes.len();
Ok(Player {
id: { ::quops::decoder::read_bounded_int(&mut reader, -5, 300, 9, "id")?.try_into()? },
count: { ::quops::decoder::read_unbounded_int(&mut reader)?.try_into()? },
role: { (::quops::decoder::take_number(&mut reader, 2)? as u8).try_into()? },
nick_name: { ::quops::decoder::read_bytes(&mut reader, &mut buffers_end_index, 4, "nickName")? },
note: { if ::quops::decoder::read_bool(&mut reader)? {
let value = { ::quops::decoder::read_bytes(&mut reader, &mut buffers_end_index, 5, "note")? };
Some(value)
} else {
None
} },
scores: { {
let length = ::quops::decoder::take_number(&mut reader, 3)? as usize;
let mut items = Vec::new();
for _ in 0..length {
let item = { ::quops::decoder::read_bounded_int(&mut reader, 0, 3, 2, "scores")?.try_into()? };
items.push(item);
}
items
} },
last_round: { if ::quops::decoder::read_bool(&mut reader)? {
let value = { Stats {
total_time: { ::quops::decoder::read_bounded_int(&mut reader, 0, 1000, 10, "totalTime")?.try_into()? },
won: { ::quops::decoder::read_bool(&mut reader)? },
} };
Some(value)
} else {
None
} },
level: { if ::quops::decoder::read_bool(&mut reader)? {
let value = { ::quops::decoder::read_bounded_int(&mut reader, 1, 8, 3, "level")?.try_into()? };
Some(value)
} else {
None
} },
})
}
}
"#;

impl ::quops::traits::Decode for Player {
fn decode(bytes: &[u8]) -> Result<Self, ::quops::DecodeError> {
let mut reader = ::quops::BitReader::new(bytes);
let mut buffers_end_index: usize = bytes.len();
Ok(Player {
id: { ::quops::decoder::read_bounded_int(&mut reader, -5, 300, 9, "id")?.try_into()? },
count: { ::quops::decoder::read_unbounded_int(&mut reader)?.try_into()? },
role: { (::quops::decoder::take_number(&mut reader, 2)? as u8).try_into()? },
nick_name: { ::quops::decoder::read_bytes(&mut reader, &mut buffers_end_index, 4, "nickName")? },
note: { if ::quops::decoder::read_bool(&mut reader)? {
let value = { ::quops::decoder::read_bytes(&mut reader, &mut buffers_end_index, 5, "note")? };
Some(value)
} else {
None
} },
scores: { {
let length = ::quops::decoder::take_number(&mut reader, 3)? as usize;
let mut items = Vec::new();
for _ in 0..length {
let item = { ::quops::decoder::read_bounded_int(&mut reader, 0, 3, 2, "scores")?.try_into()? };
items.push(item);
}
items
} },
last_round: { if ::quops::decoder::read_bool(&mut reader)? {
let value = { Stats {
total_time: { ::quops::decoder::read_bounded_int(&mut reader, 0, 1000, 10, "totalTime")?.try_into()? },
won: { ::quops::decoder::read_bool(&mut reader)? },
} };
Some(value)
} else {
None
} },
level: { if ::quops::decoder::read_bool(&mut reader)? {
let value = { ::quops::decoder::read_bounded_int(&mut reader, 1, 8, 3, "level")?.try_into()? };
Some(value)
} else {
None
} },
})
}
}

fn role_schema() -> Schema {
    Schema::parse(r#"{"type": "enum", "variants": ["Player", "Leader", "Moderator"]}"#, Vec::new()).unwrap()
}

fn sample_schema() -> Schema {
    let stats = Schema::parse(
        r#"{"type": "record", "fields": {"totalTime": {"type": "int", "min": 0, "max": 1000}, "won": "bool"}}"#,
        Vec::new(),
    )
    .unwrap();
    Schema::parse(
        r#"{"type": "record", "dependencies": ["Role", "Stats"], "fields": {
            "id": {"type": "int", "min": -5, "max": 300},
            "count": "int",
            "role": "Role",
            "nickName": {"type": "bytes", "maxLength": 15},
            "note": {"type": "bytes", "nullable": true},
            "scores": {"type": "array", "maxLength": 7, "items": {"type": "int", "min": 0, "max": 3}},
            "lastRound": {"type": "Stats", "nullable": true},
            "level": {"type": "int", "min": 1, "max": 8, "nullable": true}
        }}"#,
        vec![("Role".to_string(), role_schema()), ("Stats".to_string(), stats)],
    )
    .unwrap()
}

fn sample_decl() -> TypeDecl {
    let field = |name: &str, ty: TypeHelper| StructField { name: name.to_string(), ty };
    TypeDecl {
        name: "Player".to_string(),
        data: TypeData::Struct(vec![
            field("id", TypeHelper::new("i16")),
            field("count", TypeHelper::new("i32")),
            field("role", TypeHelper::new("Role")),
            field("nick_name", TypeHelper::generic("Vec", TypeHelper::new("u8"))),
            field("note", TypeHelper::generic("Option", TypeHelper::generic("Vec", TypeHelper::new("u8")))),
            field("scores", TypeHelper::generic("Vec", TypeHelper::new("u8"))),
            field("last_round", TypeHelper::generic("Option", TypeHelper::new("Stats"))),
            field("level", TypeHelper::generic("Option", TypeHelper::new("u8"))),
        ]),
    }
}

fn role_decl() -> TypeDecl {
    TypeDecl {
        name: "Role".to_string(),
        data: TypeData::Enum(vec!["Player".to_string(), "Leader".to_string(), "Moderator".to_string()]),
    }
}

fn sample_player() -> Player {
    Player {
        id: 299,
        count: 70000,
        role: Role::Moderator,
        nick_name: vec![1, 2, 3],
        note: Some(vec![9, 8]),
        scores: vec![3, 0, 2, 1],
        last_round: Some(Stats { total_time: 512, won: true }),
        level: None,
    }
}

fn sample_datum() -> Datum {
    Datum::Record(vec![
        Datum::Int(299),
        Datum::Int(70000),
        Datum::Enum(2),
        Datum::Bytes(vec![1, 2, 3]),
        Datum::Bytes(vec![9, 8]),
        Datum::Array(vec![Datum::Int(3), Datum::Int(0), Datum::Int(2), Datum::Int(1)]),
        Datum::Record(vec![Datum::Int(512), Datum::Bool(true)]),
        Datum::Null,
    ])
}

#[test]
fn derived_encode_text_for_a_structure() {
    assert_eq!(encode(&sample_decl(), &sample_schema()), PLAYER_ENCODE);
}

#[test]
fn derived_decode_text_for_a_structure() {
    assert_eq!(decode(&sample_decl(), &sample_schema()), PLAYER_DECODE);
}

#[test]
fn derived_texts_for_an_enumeration() {
    assert_eq!(encode(&role_decl(), &role_schema()), ROLE_ENCODE);
    assert_eq!(decode(&role_decl(), &role_schema()), ROLE_DECODE);
}

#[test]
fn derived_routines_agree_with_the_schema() {
    let player = sample_player();
    let bytes = quops::encode(&player).unwrap();
    assert_eq!(bytes, sample_schema().encode(&sample_datum()).unwrap());
    let back: Player = quops::decode(&bytes).unwrap();
    assert_eq!(back, player);
    assert_eq!(sample_schema().decode(&bytes).unwrap(), sample_datum());
}

#[test]
fn derived_routines_refuse_what_the_schema_refuses() {
    let mut player = sample_player();
    player.id = 301;
    assert!(matches!(quops::encode(&player), Err(quops::EncodeError::OutOfBounds(_))));
    let mut player = sample_player();
    player.nick_name = vec![0; 16];
    assert!(matches!(quops::encode(&player), Err(quops::EncodeError::OutOfBounds(_))));
    let mut player = sample_player();
    player.count = -1;
    assert!(matches!(quops::encode(&player), Err(quops::EncodeError::OutOfBounds(_))));
}

#[test]
fn mismatched_types_stop_the_build() {
    let schema = sample_schema();
    let mut decl = sample_decl();
    if let TypeData::Struct(fields) = &mut decl.data {
        fields[0].ty = TypeHelper::new("u8");
    }
    assert!(encode(&decl, &schema).starts_with("compile_error!(\"Schema validation error: "));
    let mut decl = sample_decl();
    if let TypeData::Struct(fields) = &mut decl.data {
        fields.pop();
    }
    assert!(encode(&decl, &schema).starts_with("compile_error!("));
    assert!(decode(&decl, &schema).starts_with("compile_error!("));
    assert_eq!(
        encode(&role_decl(), &schema),
        "compile_error!(\"Encode can only be derived for enums with 'enum' schema type\");\n"
    );
    assert_eq!(
        decode(&sample_decl(), &role_schema()),
        "compile_error!(\"Decode can only be derived for structs with 'record' schema type\");\n"
    );
    let other = TypeDecl { name: "U".to_string(), data: TypeData::Other };
    assert_eq!(
        encode(&other, &schema),
        "compile_error!(\"Encode can only be derived for structs and enums\");\n"
    );
    assert_eq!(decode(&other, &schema), "");
}

#[test]
fn names_are_quoted_with_their_escapes() {
    assert_eq!(quops::generate::stop_build("a \"b\" \\ c"), "compile_error!(\"a \\\"b\\\" \\\\ c\");\n");
    assert_eq!(quops::generate::stop_build("a\r\nb\tc"), "compile_error!(\"a\\r\\nb\\tc\");\n");
}

#[test]
fn field_routines_are_generated_alone() {
    let schema = sample_schema();
    let Schema::Record(record) = &schema else { panic!("a record schema") };
    assert_eq!(
        quops::generate::generate_encode_field(&record.fields()[0], "self.id"),
        "::quops::encoder::write_bounded_host(&mut writer, i64::try_from(self.id), -5, 300, 9, \"id\")?;\n"
    );
    assert_eq!(
        quops::generate::generate_decode_field(&record.fields()[1], "i32"),
        "::quops::decoder::read_unbounded_int(&mut reader)?.try_into()?"
    );
}

#[derive(Debug, PartialEq, Clone)]
struct Wide {
    x: u128,
    y: i128,
}

const WIDE_ENCODE: &str = r#"impl ::quops::traits::Encode for Wide {
fn encode(&self) -> Result<Vec<u8>, ::quops::EncodeError> {
let total_bytes: usize = ((7 + 7) / 8);
let mut writer = ::quops::BitWriter::with_capacity(total_bytes);
::quops::encoder::write_bounded_host(&mut writer, i64::try_from(self.x), 10, 13, 2, "x")?;
::quops::encoder::write_unbounded_host(&mut writer, i64::try_from(self.y), "y")?;
let mut bin = writer.into_bytes();
Ok(bin)
}
}
"#;

impl ::quops::traits::Encode for Wide {
fn encode(&self) -> Result<Vec<u8>, ::quops::EncodeError> {
let total_bytes: usize = ((7 + 7) / 8);
let mut writer = ::quops::BitWriter::with_capacity(total_bytes);
::quops::encoder::write_bounded_host(&mut writer, i64::try_from(self.x), 10, 13, 2, "x")?;
::quops::encoder::write_unbounded_host(&mut writer, i64::try_from(self.y), "y")?;
let mut bin = writer.into_bytes();
Ok(bin)
}
}

fn wide_schema() -> Schema {
    Schema::parse(
        r#"{"type": "record", "fields": {"x": {"type": "int", "min": 10, "max": 13}, "y": "int"}}"#,
        Vec::new(),
    )
    .unwrap()
}

fn wide_decl() -> TypeDecl {
    TypeDecl {
        name: "Wide".to_string(),
        data: TypeData::Struct(vec![
            StructField { name: "x".to_string(), ty: TypeHelper::new("u128") },
            StructField { name: "y".to_string(), ty: TypeHelper::new("i128") },
        ]),
    }
}

#[test]
fn wide_host_integers_are_not_cut_before_the_bounds_are_tested() {
    assert_eq!(encode(&wide_decl(), &wide_schema()), WIDE_ENCODE);
    assert_eq!(quops::encode(&Wide { x: 11, y: 5 }).unwrap(), vec![0b1000_1101, 0b10]);
    let beyond = (1u128 << 64) + 11;
    assert!(matches!(quops::encode(&Wide { x: beyond, y: 5 }), Err(quops::EncodeError::OutOfBounds(_))));
    assert!(matches!(quops::encode(&Wide { x: u128::MAX, y: 5 }), Err(quops::EncodeError::OutOfBounds(_))));
    assert!(matches!(
        quops::encode(&Wide { x: 11, y: (1i128 << 64) + 5 }),
        Err(quops::EncodeError::OutOfBounds(_))
    ));
    assert!(matches!(quops::encode(&Wide { x: 11, y: -(1i128 << 64) }), Err(quops::EncodeError::OutOfBounds(_))));
    assert!(matches!(quops::encode(&Wide { x: 14, y: 5 }), Err(quops::EncodeError::OutOfBounds(_))));
}

#[test]
fn ordinals_follow_the_schema_whatever_the_host_declares() {
    let host = TypeDecl {
        name: "Role".to_string(),
        data: TypeData::Enum(vec!["Moderator".to_string(), "Player".to_string(), "Leader".to_string()]),
    };
    assert_eq!(encode(&host, &role_schema()), ROLE_ENCODE);
    assert_eq!(decode(&host, &role_schema()), ROLE_DECODE);
}
