//! Schemas: the description of a record type or of an enumeration type, and
//! the encoding and decoding of whole messages against it.

use vstd::prelude::*;
use vstd::arithmetic::power2::lemma2_to64;
use vstd::string::StringExecFns;
use crate::bit::{bit_length, lemma_bit_length_below, lemma_bit_length_covers, pack_bits, BitReader, BitWriter};
use crate::decoder::{decode_fields, is_failure, read_ordinal};
use crate::encoder::{collected_tail, encode_fields, write_ordinal};
use crate::errors::{DecodeError, EncodeError};
use crate::text::about;
use crate::field::{
    distinct_names,
    field_models,
    lemma_field_models,
    sum_of_widths,
    total_width,
    ArrayField,
    BooleanField,
    BytesField,
    EnumField,
    Field,
    FieldModel,
    FieldTrait,
    IntField,
    KindModel,
    RecordField,
    MAX_FIELD_BITS,
    UNBOUNDED_LENGTH,
};
use crate::json::{find_member, lemma_member_of_decreases, member_of, same_text, Json};
use crate::datum::{lemma_datum_models, datum_models, Datum, DatumModel};
use crate::wire::{
    fields_decoding,
    fields_encoding,
    number_bits,
    only_bits,
    read_number,
    wire_bytes,
    DecodeFailure,
    EncodeFailure,
    Encoding,
};

verus! {

/// A schema as a mathematical value.
pub enum SchemaModel {
    /// A record type: its fields in declaration order.
    Record { fields: Seq<FieldModel> },
    /// An enumeration type: the names of its variants in declaration order.
    Enum { variants: Seq<Seq<char>> },
}

/// The largest number of variants an enumeration may have.
pub const MAX_VARIANTS: usize = 255;

impl SchemaModel {
    /// Whether the schema is one that can be loaded: distinct field names and
    /// well-formed fields whose widths add up to a 32-bit number, or at least
    /// one and at most 255 variants.
    pub open spec fn wf(self) -> bool {
        match self {
            SchemaModel::Record { fields } => {
                &&& distinct_names(fields)
                &&& forall|i: int| 0 <= i < fields.len() ==> (#[trigger] fields[i]).wf()
                &&& total_width(fields) <= u32::MAX
            },
            SchemaModel::Enum { variants } => 0 < variants.len() <= MAX_VARIANTS,
        }
    }

    /// The encoding of `value` as a message of this schema: the fields of a
    /// record in declaration order, or the ordinal of a variant in as many
    /// bits as the count of variants has binary digits.
    pub open spec fn encoding(self, value: DatumModel) -> Result<Encoding, EncodeFailure> {
        match (self, value) {
            (SchemaModel::Record { fields }, DatumModel::Record(values)) => {
                if values.len() == fields.len() {
                    fields_encoding(fields, values)
                } else {
                    Err(EncodeFailure::NotSupported)
                }
            },
            (SchemaModel::Enum { variants }, DatumModel::Enum(ordinal)) => {
                if ordinal < variants.len() {
                    Ok(only_bits(number_bits(ordinal, bit_length(variants.len()))))
                } else {
                    Err(EncodeFailure::OutOfBounds)
                }
            },
            _ => Err(EncodeFailure::NotSupported),
        }
    }

    /// The message of this schema that `input` holds.
    pub open spec fn decoding(self, input: Seq<u8>) -> Result<DatumModel, DecodeFailure> {
        match self {
            SchemaModel::Record { fields } => match fields_decoding(fields, input, 0, input.len()) {
                Ok(list) => Ok(DatumModel::Record(list.values)),
                Err(failure) => Err(failure),
            },
            SchemaModel::Enum { variants } => match read_number(
                input,
                0,
                bit_length(variants.len()),
            ) {
                None => Err(DecodeFailure::NotEnoughBits),
                Some(ordinal) => if ordinal < variants.len() {
                    Ok(DatumModel::Enum(ordinal))
                } else {
                    Err(DecodeFailure::OutOfBounds)
                },
            },
        }
    }
}

/// Whether the outcome `result` of encoding a message is the one that the
/// wire layout `expected` asks for: the bytes on success, the kind of error
/// on failure.
pub open spec fn encoded(expected: Result<Encoding, EncodeFailure>, result: Result<
    Vec<u8>,
    EncodeError,
>) -> bool {
    match expected {
        Ok(encoding) => result matches Ok(bytes) && bytes@ == wire_bytes(encoding),
        Err(EncodeFailure::OutOfBounds) => result matches Err(EncodeError::OutOfBounds(_)),
        Err(EncodeFailure::NotSupported) => result matches Err(EncodeError::NotSupported(_)),
    }
}

/// Whether the outcome `result` of decoding a message is the one that the
/// wire layout `expected` asks for: the value on success, the kind of error
/// on failure.
pub open spec fn decoded(expected: Result<DatumModel, DecodeFailure>, result: Result<
    Datum,
    DecodeError,
>) -> bool {
    match expected {
        Ok(model) => result matches Ok(value) && value@ == model,
        Err(failure) => result matches Err(error) && is_failure(error, failure),
    }
}

/// The names of the variants as mathematical values.
pub open spec fn variant_names(variants: Seq<String>) -> Seq<Seq<char>> {
    Seq::new(variants.len(), |i: int| variants[i]@)
}

/// The schema of an enumeration type.
#[derive(Debug)]
pub struct EnumSchema {
    pub variants: Vec<String>,
}

impl EnumSchema {
    /// The schema as a mathematical value.
    pub open spec fn view(&self) -> SchemaModel {
        SchemaModel::Enum { variants: variant_names(self.variants@) }
    }

    /// Whether the enumeration has at least one and at most 255 variants.
    pub open spec fn wf(&self) -> bool {
        self@.wf()
    }

    /// The number of bits that hold the ordinal of a variant.
    pub fn bits(&self) -> (bits: u8)
        requires
            self.wf(),
        ensures
            bits == bit_length(self.variants@.len()),
            bits <= 8,
    {
        proof {
            lemma2_to64();
            lemma_bit_length_below(self.variants@.len(), 8);
        }
        crate::bit::bit_length_of(self.variants.len() as u64)
    }

    /// The bytes that stand for the variant with the ordinal `ordinal`.
    pub fn encode(&self, ordinal: u64) -> (r: Result<Vec<u8>, EncodeError>)
        requires
            self.wf(),
        ensures
            encoded(self@.encoding(DatumModel::Enum(ordinal as nat)), r),
    {
        let width: u8 = self.bits();
        let mut writer = BitWriter::with_capacity(1);
        proof {
            lemma_bit_length_covers(self.variants@.len());
        }
        match write_ordinal(&mut writer, ordinal, self.variants.len() as u8, width, "") {
            Ok(()) => {},
            Err(error) => {
                return Err(error);
            },
        }
        let bytes = writer.into_bytes();
        proof {
            let bits = number_bits(ordinal as nat, width as nat);
            assert(Seq::<bool>::empty() + bits =~= bits);
            assert(pack_bits(bits) + Seq::<u8>::empty() =~= pack_bits(bits));
        }
        Ok(bytes)
    }

    /// The ordinal of the variant that `bytes` stand for.
    pub fn decode(&self, bytes: &[u8]) -> (r: Result<u64, DecodeError>)
        requires
            self.wf(),
        ensures
            match self@.decoding(bytes@) {
                Ok(model) => r matches Ok(ordinal) && model == DatumModel::Enum(ordinal as nat),
                Err(failure) => r matches Err(error) && is_failure(error, failure),
            },
    {
        let width: u8 = self.bits();
        let mut reader = BitReader::new(bytes);
        read_ordinal(&mut reader, self.variants.len() as u8, width, "")
    }
}


/// The models of named schemas, in the same order.
pub open spec fn named_models(named: Seq<(String, Schema)>) -> Seq<(Seq<char>, SchemaModel)>
    decreases named, 0nat,
{
    if named.len() == 0 {
        Seq::empty()
    } else {
        named_models(named.drop_last()).push((named.last().0@, named.last().1@))
    }
}

/// Whether every one of the named schemas is well formed.
pub open spec fn all_wf(named: Seq<(String, Schema)>) -> bool
    decreases named, 0nat,
{
    named.len() > 0 ==> all_wf(named.drop_last()) && named.last().1.wf()
}

/// The schema of a record type: its fields, and the schemas that its fields
/// refer to by name.
#[derive(Debug)]
pub struct RecordSchema {
    pub fields: Vec<Field>,
    dependencies: Vec<(String, Schema)>,
}

/// A schema: that of a record type or that of an enumeration type.
#[derive(Debug)]
pub enum Schema {
    Record(RecordSchema),
    Enum(EnumSchema),
}

impl RecordSchema {
    /// The schema as a mathematical value.
    pub closed spec fn view(&self) -> SchemaModel
        decreases self, 1nat,
    {
        SchemaModel::Record { fields: field_models(self.fields@) }
    }

    /// The schemas that the fields may refer to, with their names.
    pub closed spec fn dependency_models(&self) -> Seq<(Seq<char>, SchemaModel)>
        decreases self, 1nat,
    {
        named_models(self.dependencies@)
    }

    /// Whether the fields are well formed and distinct in name, their widths
    /// add up to a 32-bit number, and the schemas referred to are well formed.
    pub closed spec fn wf(&self) -> bool
        decreases self, 1nat,
    {
        &&& self@.wf()
        &&& forall|i: int| 0 <= i < self.fields@.len() ==> (#[trigger] self.fields@[i]).wf()
        &&& all_wf(self.dependencies@)
    }

    /// A record schema without fields that refers to `dependencies`.
    pub fn new(dependencies: Vec<(String, Schema)>) -> (schema: Self)
        requires
            all_wf(dependencies@),
        ensures
            schema.wf(),
            schema@ == (SchemaModel::Record { fields: Seq::empty() }),
            schema.dependency_models() == named_models(dependencies@),
    {
        RecordSchema { fields: Vec::new(), dependencies }
    }

    /// The fields, in declaration order.
    pub fn fields(&self) -> (fields: &Vec<Field>)
        ensures
            self@ == (SchemaModel::Record { fields: field_models(fields@) }),
            self.wf() ==> forall|i: int| 0 <= i < fields@.len() ==> (#[trigger] fields@[i]).wf(),
    {
        &self.fields
    }

    /// The sum of the widths of the fields.
    pub fn bits(&self) -> (bits: u32)
        requires
            self.wf(),
        ensures
            self@ is Record,
            bits == total_width(self@->fields),
    {
        sum_of_widths(&self.fields)
    }

    /// The bytes that stand for a record with the field values `values`: the
    /// bit stream padded to a whole byte, then the byte sequences, the one
    /// met last coming first.
    pub fn encode(&self, values: &Vec<Datum>) -> (r: Result<Vec<u8>, EncodeError>)
        requires
            self.wf(),
        ensures
            encoded(self@.encoding(DatumModel::Record(datum_models(values@))), r),
    {
        proof {
            lemma_field_models(self.fields@);
            lemma_datum_models(values@);
        }
        if values.len() != self.fields.len() {
            return Err(
                EncodeError::NotSupported("Value has another number of fields".to_owned()),
            );
        }
        let capacity: usize = (self.bits() as usize / 8) + 1;
        let mut writer = BitWriter::with_capacity(capacity);
        let mut buffers: Vec<&Vec<u8>> = Vec::new();
        match encode_fields(&self.fields, values, &mut writer, &mut buffers) {
            Ok(()) => {},
            Err(error) => {
                return Err(error);
            },
        }
        let ghost encoding = fields_encoding(field_models(self.fields@), datum_models(values@))->Ok_0;
        let mut bytes = writer.into_bytes();
        let ghost packed = bytes@;
        let mut left: usize = buffers.len();
        proof {
            assert(writer@ =~= encoding.bits);
            assert(collected_tail(buffers@) =~= encoding.tail);
            assert(buffers@.take(left as int) =~= buffers@);
            assert(bytes@ + collected_tail(buffers@) =~= packed + encoding.tail);
        }
        while left > 0
            invariant
                left <= buffers@.len(),
                bytes@ + collected_tail(buffers@.take(left as int)) == packed + encoding.tail,
            decreases left,
        {
            let ghost before = bytes@;
            proof {
                assert(buffers@.take(left as int).drop_last() =~= buffers@.take(left - 1));
            }
            bytes.extend_from_slice(buffers[left - 1].as_slice());
            proof {
                assert(bytes@ + collected_tail(buffers@.take(left - 1)) =~= before
                    + collected_tail(buffers@.take(left as int)));
            }
            left = left - 1;
        }
        proof {
            assert(bytes@ + Seq::<u8>::empty() =~= bytes@);
        }
        Ok(bytes)
    }

    /// The field values of the record that `bytes` stand for.
    pub fn decode(&self, bytes: &[u8]) -> (r: Result<Vec<Datum>, DecodeError>)
        requires
            self.wf(),
        ensures
            match self@.decoding(bytes@) {
                Ok(model) => r matches Ok(values) && model == DatumModel::Record(
                    datum_models(values@),
                ),
                Err(failure) => r matches Err(error) && is_failure(error, failure),
            },
    {
        let mut reader = BitReader::new(bytes);
        let mut cursor: usize = bytes.len();
        decode_fields(&self.fields, &mut reader, &mut cursor)
    }
}

impl Schema {
    /// The schema as a mathematical value.
    pub open spec fn view(&self) -> SchemaModel
        decreases self, 2nat,
    {
        match self {
            Schema::Record(schema) => schema@,
            Schema::Enum(schema) => schema@,
        }
    }

    /// Whether the schema is well formed.
    pub open spec fn wf(&self) -> bool
        decreases self, 2nat,
    {
        match self {
            Schema::Record(schema) => schema.wf(),
            Schema::Enum(schema) => schema.wf(),
        }
    }

    /// The bytes that stand for `value` as a message of this schema.
    pub fn encode(&self, value: &Datum) -> (r: Result<Vec<u8>, EncodeError>)
        requires
            self.wf(),
        ensures
            encoded(self@.encoding(value@), r),
    {
        match (self, value) {
            (Schema::Record(schema), Datum::Record(values)) => schema.encode(values),
            (Schema::Enum(schema), Datum::Enum(ordinal)) => schema.encode(*ordinal),
            _ => {
                proof {
                    self.lemma_model();
                }
                Err(EncodeError::NotSupported("Value is of another kind".to_owned()))
            },
        }
    }

    /// The message of this schema that `bytes` stand for.
    pub fn decode(&self, bytes: &[u8]) -> (r: Result<Datum, DecodeError>)
        requires
            self.wf(),
        ensures
            decoded(self@.decoding(bytes@), r),
    {
        match self {
            Schema::Record(schema) => match schema.decode(bytes) {
                Ok(values) => Ok(Datum::Record(values)),
                Err(error) => Err(error),
            },
            Schema::Enum(schema) => match schema.decode(bytes) {
                Ok(ordinal) => Ok(Datum::Enum(ordinal)),
                Err(error) => Err(error),
            },
        }
    }

    /// The model of a schema is of the kind of the schema.
    pub proof fn lemma_model(&self)
        ensures
            self is Record <==> self@ is Record,
            self is Enum <==> self@ is Enum,
            self.wf() ==> self@.wf(),
    {
    }
}


/// The first schema named `name` among `named`.
pub open spec fn dependency_of(named: Seq<(Seq<char>, SchemaModel)>, name: Seq<char>) -> Option<
    SchemaModel,
>
    decreases named.len(),
{
    if named.len() == 0 {
        None
    } else if named[0].0 == name {
        Some(named[0].1)
    } else {
        dependency_of(named.drop_first(), name)
    }
}

/// The field named `name` that refers to the schema `schema`: a record field
/// with the fields of a record schema, or an enumeration field with as many
/// variants as an enumeration schema has. There is none where the field would
/// be wider than 255 bits.
pub open spec fn dependency_field(schema: SchemaModel, name: Seq<char>, nullable: bool) -> Option<
    FieldModel,
> {
    let field = match schema {
        SchemaModel::Record { fields } => FieldModel {
            name,
            nullable,
            kind: KindModel::Record { fields },
        },
        SchemaModel::Enum { variants } => FieldModel {
            name,
            nullable,
            kind: KindModel::Enum { variants: variants.len() },
        },
    };
    if field.width() <= MAX_FIELD_BITS {
        Some(field)
    } else {
        None
    }
}

/// The field named `name` of the type that the tag `tag` names, without
/// bounds: an integer, a truth value, a byte sequence, or what the schema of
/// that name among `named` describes.
pub open spec fn tagged_field(
    named: Seq<(Seq<char>, SchemaModel)>,
    name: Seq<char>,
    tag: Seq<char>,
) -> Option<FieldModel> {
    if tag == "int"@ {
        Some(FieldModel { name, nullable: false, kind: KindModel::Int { min: None, max: None } })
    } else if tag == "bool"@ {
        Some(FieldModel { name, nullable: false, kind: KindModel::Boolean })
    } else if tag == "bytes"@ {
        Some(FieldModel { name, nullable: false, kind: KindModel::Bytes { max_length: None } })
    } else if tag == "array"@ {
        None
    } else {
        match dependency_of(named, tag) {
            Some(schema) => dependency_field(schema, name, false),
            None => None,
        }
    }
}

/// The bound that the member `key` of an object declares: its number, cut to
/// 32 bits, where it is a whole number.
pub open spec fn declared_bound(members: Seq<(String, Json)>, key: Seq<char>) -> Option<i32> {
    match member_of(members, key) {
        Some(json) => match json.spec_i64() {
            Some(number) => Some(number as i32),
            None => None,
        },
        None => None,
    }
}

/// The length that the member `maxLength` of an object declares: its number,
/// cut to 32 bits, where it is a whole number that is not negative.
pub open spec fn declared_length(members: Seq<(String, Json)>) -> Option<u32> {
    match member_of(members, "maxLength"@) {
        Some(json) => match json.spec_u64() {
            Some(number) => Some(number as u32),
            None => None,
        },
        None => None,
    }
}

/// Whether the member `nullable` of an object is the truth value `true`.
pub open spec fn declared_nullable(members: Seq<(String, Json)>) -> bool {
    match member_of(members, "nullable"@) {
        Some(json) => json.spec_bool() == Some(true),
        None => false,
    }
}

/// The type tag that the member `type` of an object holds, where it is a
/// string.
pub open spec fn declared_type(members: Seq<(String, Json)>) -> Option<Seq<char>> {
    match member_of(members, "type"@) {
        Some(json) => json.spec_text(),
        None => None,
    }
}

/// The field named `name` that the field specification `field_spec` describes,
/// where it describes one: a string is a type tag; an object holds its type
/// tag under `type`, with `nullable`, `min`, `max`, `maxLength` and `items`
/// as the type allows.
pub open spec fn parsed_field(
    named: Seq<(Seq<char>, SchemaModel)>,
    name: Seq<char>,
    field_spec: Json,
) -> Option<FieldModel>
    decreases field_spec,
{
    match field_spec {
        Json::String(tag) => tagged_field(named, name, tag@),
        Json::Object(members) => match declared_type(members@) {
            None => None,
            Some(tag) => {
                let nullable = declared_nullable(members@);
                if tag == "int"@ {
                    let min = declared_bound(members@, "min"@);
                    let max = declared_bound(members@, "max"@);
                    if min is Some && max is Some && min->Some_0 > max->Some_0 {
                        None
                    } else {
                        Some(
                            FieldModel {
                                name,
                                nullable,
                                kind: KindModel::Int {
                                    min: crate::field::bound_model(min),
                                    max: crate::field::bound_model(max),
                                },
                            },
                        )
                    }
                } else if tag == "bool"@ {
                    Some(FieldModel { name, nullable, kind: KindModel::Boolean })
                } else if tag == "bytes"@ {
                    Some(
                        FieldModel {
                            name,
                            nullable,
                            kind: KindModel::Bytes {
                                max_length: crate::field::length_model(declared_length(members@)),
                            },
                        },
                    )
                } else if tag == "array"@ {
                    let max_items = match declared_length(members@) {
                        Some(length) => length,
                        None => UNBOUNDED_LENGTH,
                    };
                    proof {
                        lemma_member_of_decreases(members, "items"@);
                    }
                    match member_of(members@, "items"@) {
                        None => None,
                        Some(items) => match parsed_field(named, name, items) {
                            None => None,
                            Some(item) => Some(
                                FieldModel {
                                    name,
                                    nullable,
                                    kind: KindModel::Array {
                                        max_items: max_items as nat,
                                        items: Box::new(item),
                                    },
                                },
                            ),
                        },
                    }
                } else {
                    match dependency_of(named, tag) {
                        Some(schema) => dependency_field(schema, name, nullable),
                        None => None,
                    }
                }
            },
        },
        _ => None,
    }
}


/// The models of a sequence of named schemas are the models of its members.
pub proof fn lemma_named_models(named: Seq<(String, Schema)>)
    ensures
        named_models(named).len() == named.len(),
        forall|i: int|
            0 <= i < named.len() ==> (#[trigger] named_models(named)[i]) == (
                named[i].0@,
                named[i].1@,
            ),
        all_wf(named) ==> forall|i: int| 0 <= i < named.len() ==> (#[trigger] named[i]).1.wf(),
    decreases named.len(),
{
    if named.len() > 0 {
        lemma_named_models(named.drop_last());
        if all_wf(named) {
            assert forall|i: int| 0 <= i < named.len() implies (#[trigger] named[i]).1.wf() by {
                if i < named.len() - 1 {
                    assert(named.drop_last()[i].1.wf());
                }
            }
        }
    }
}

/// The bound that the member `key` declares.
fn read_bound(members: &Vec<(String, Json)>, key: &str) -> (bound: Option<i32>)
    ensures
        bound == declared_bound(members@, key@),
{
    match find_member(members, key) {
        Some(json) => match json.as_i64() {
            Some(number) => Some(#[verifier::truncate] (number as i32)),
            None => None,
        },
        None => None,
    }
}

/// The length that the member `maxLength` declares.
fn read_length(members: &Vec<(String, Json)>) -> (length: Option<u32>)
    ensures
        length == declared_length(members@),
{
    match find_member(members, "maxLength") {
        Some(json) => match json.as_u64() {
            Some(number) => Some(#[verifier::truncate] (number as u32)),
            None => None,
        },
        None => None,
    }
}

/// Whether the member `nullable` is the truth value `true`.
fn read_nullable(members: &Vec<(String, Json)>) -> (nullable: bool)
    ensures
        nullable == declared_nullable(members@),
{
    match find_member(members, "nullable") {
        Some(json) => match json.as_bool() {
            Some(truth) => truth,
            None => false,
        },
        None => false,
    }
}

/// The type tag that the member `type` holds.
fn read_type(members: &Vec<(String, Json)>) -> (tag: Option<&str>)
    ensures
        match declared_type(members@) {
            Some(chars) => tag matches Some(text) && text@ == chars,
            None => tag is None,
        },
{
    match find_member(members, "type") {
        Some(json) => json.as_str(),
        None => None,
    }
}

/// Whether the outcome `result` of reading a field specification is the one
/// that `expected` asks for: a well-formed field with that model, or an error
/// where there is none.
pub open spec fn field_read(expected: Option<FieldModel>, result: Result<Field, String>) -> bool {
    match expected {
        Some(model) => result matches Ok(field) && field@ == model && field.wf(),
        None => result is Err,
    }
}

/// The field named `name` that refers to `schema`.
pub fn resolve_dependency(schema: &Schema, name: &str, nullable: bool) -> (r: Result<
    Field,
    String,
>)
    requires
        schema.wf(),
    ensures
        field_read(dependency_field(schema@, name@, nullable), r),
{
    match schema {
        Schema::Record(record) => {
            let payload: u32 = record.bits();
            let presence: u32 = if nullable {
                1
            } else {
                0
            };
            if payload > MAX_FIELD_BITS - presence {
                return Err(about("Record is wider than 255 bits", name));
            }
            let fields = crate::field::duplicate_fields(&record.fields);
            proof {
                assert forall|i: int| 0 <= i < fields@.len() implies (#[trigger] fields@[i]).wf() by {
                    assert(record.fields@[i].wf());
                }
            }
            Ok(Field::Record(RecordField::new(name, fields, nullable)))
        },
        Schema::Enum(enumeration) => {
            proof {
                lemma2_to64();
                lemma_bit_length_below(enumeration.variants@.len(), 8);
            }
            Ok(Field::Enum(EnumField::new(name, enumeration.variants.len() as u8, nullable)))
        },
    }
}

impl RecordSchema {
    /// The first schema named `tag` among those the fields may refer to.
    pub fn find_dependency(&self, tag: &str) -> (found: Option<&Schema>)
        requires
            self.wf(),
        ensures
            match dependency_of(self.dependency_models(), tag@) {
                Some(model) => found matches Some(schema) && schema@ == model && schema.wf(),
                None => found is None,
            },
    {
        let ghost models = named_models(self.dependencies@);
        let mut i: usize = 0;
        proof {
            lemma_named_models(self.dependencies@);
            assert(models.skip(0) =~= models);
        }
        while i < self.dependencies.len()
            invariant
                i <= self.dependencies@.len(),
                models == named_models(self.dependencies@),
                models.len() == self.dependencies@.len(),
                forall|k: int|
                    0 <= k < self.dependencies@.len() ==> (#[trigger] models[k]) == (
                        self.dependencies@[k].0@,
                        self.dependencies@[k].1@,
                    ),
                forall|k: int|
                    0 <= k < self.dependencies@.len() ==> (#[trigger] self.dependencies@[k]).1.wf(),
                dependency_of(models, tag@) == dependency_of(models.skip(i as int), tag@),
            decreases self.dependencies@.len() - i,
        {
            proof {
                assert(models.skip(i as int).drop_first() =~= models.skip(i + 1));
                assert(models.skip(i as int)[0] == models[i as int]);
            }
            if same_text(self.dependencies[i].0.as_str(), tag) {
                return Some(&self.dependencies[i].1);
            }
            i = i + 1;
        }
        None
    }

    /// The field named `name` of the type that the tag `tag` names, without
    /// bounds.
    pub fn tagged(&self, name: &str, tag: &str) -> (r: Result<Field, String>)
        requires
            self.wf(),
        ensures
            field_read(tagged_field(self.dependency_models(), name@, tag@), r),
    {
        if same_text(tag, "int") {
            match IntField::new(name, None, None, false) {
                Ok(field) => Ok(Field::Int(field)),
                Err(message) => Err(message),
            }
        } else if same_text(tag, "bool") {
            Ok(Field::Boolean(BooleanField::new(name, false)))
        } else if same_text(tag, "bytes") {
            Ok(Field::Bytes(BytesField::new(name, None, false)))
        } else if same_text(tag, "array") {
            Err(about("Field is an array but no schema provided for it", name))
        } else {
            match self.find_dependency(tag) {
                Some(schema) => resolve_dependency(schema, name, false),
                None => Err(about("Unsupported field type", tag)),
            }
        }
    }

    /// The field named `name` that the field specification `field_spec` describes.
    /// A specification that describes none is refused.
    pub fn parse_field(&self, name: &str, field_spec: &Json) -> (r: Result<Field, String>)
        requires
            self.wf(),
        ensures
            field_read(parsed_field(self.dependency_models(), name@, *field_spec), r),
        decreases field_spec,
    {
        match field_spec {
            Json::String(tag) => self.tagged(name, tag.as_str()),
            Json::Object(members) => {
                let tag: &str = match read_type(members) {
                    Some(tag) => tag,
                    None => {
                        return Err(about("Field 'type' is not a string", name));
                    },
                };
                let nullable: bool = read_nullable(members);
                if same_text(tag, "int") {
                    let min = read_bound(members, "min");
                    let max = read_bound(members, "max");
                    match IntField::new(name, min, max, nullable) {
                        Ok(field) => Ok(Field::Int(field)),
                        Err(message) => Err(message),
                    }
                } else if same_text(tag, "bool") {
                    Ok(Field::Boolean(BooleanField::new(name, nullable)))
                } else if same_text(tag, "bytes") {
                    Ok(Field::Bytes(BytesField::new(name, read_length(members), nullable)))
                } else if same_text(tag, "array") {
                    let max_items: u32 = match read_length(members) {
                        Some(length) => length,
                        None => UNBOUNDED_LENGTH,
                    };
                    let items: &Json = match find_member(members, "items") {
                        Some(items) => items,
                        None => {
                            return Err(
                                about("Array field must have the 'items' field", name),
                            );
                        },
                    };
                    proof {
                        lemma_member_of_decreases(*members, "items"@);
                    }
                    let item_field = match self.parse_field(name, items) {
                        Ok(field) => field,
                        Err(message) => {
                            return Err(message);
                        },
                    };
                    Ok(Field::Array(ArrayField::new(name, max_items, item_field, nullable)))
                } else {
                    match self.find_dependency(tag) {
                        Some(schema) => resolve_dependency(schema, name, nullable),
                        None => Err(about("Field is not a valid type or object", name)),
                    }
                }
            },
            _ => Err(about("Field is not a valid type or object", name)),
        }
    }
}


/// Whether a record with the fields `fields` can take the field `field` in:
/// no field has its name, and the widths still add up to a 32-bit number.
pub open spec fn can_take(fields: Seq<FieldModel>, field: FieldModel) -> bool {
    &&& forall|i: int| 0 <= i < fields.len() ==> (#[trigger] fields[i]).name != field.name
    &&& total_width(fields) + field.width() <= u32::MAX
}

/// The fields that the members of the object `fields` of a record schema
/// describe, in the order of the document. There are none where a member
/// describes no field, or a name occurs twice.
pub open spec fn parsed_fields(
    named: Seq<(Seq<char>, SchemaModel)>,
    members: Seq<(String, Json)>,
) -> Option<Seq<FieldModel>>
    decreases members.len(),
{
    if members.len() == 0 {
        Some(Seq::empty())
    } else {
        match parsed_fields(named, members.drop_last()) {
            None => None,
            Some(front) => match parsed_field(named, members.last().0@, members.last().1) {
                None => None,
                Some(field) => if can_take(front, field) {
                    Some(front.push(field))
                } else {
                    None
                },
            },
        }
    }
}

/// The texts of the items of an array, where every item is a string.
pub open spec fn parsed_texts(items: Seq<Json>) -> Option<Seq<Seq<char>>>
    decreases items.len(),
{
    if items.len() == 0 {
        Some(Seq::empty())
    } else {
        match (parsed_texts(items.drop_last()), items.last().spec_text()) {
            (Some(front), Some(text)) => Some(front.push(text)),
            _ => None,
        }
    }
}

/// The schema that a schema document describes, where it describes one: an
/// object whose member `type` is `record`, with an object `fields`, or
/// `enum`, with an array `variants` of at least one and at most 255 strings.
pub open spec fn parsed_schema(named: Seq<(Seq<char>, SchemaModel)>, document: Json) -> Option<
    SchemaModel,
> {
    match document.spec_get("type"@) {
        Some(Json::String(tag)) => if tag@ == "record"@ {
            match document.spec_get("fields"@) {
                Some(Json::Object(members)) => match parsed_fields(named, members@) {
                    Some(fields) => Some(SchemaModel::Record { fields }),
                    None => None,
                },
                _ => None,
            }
        } else if tag@ == "enum"@ {
            match document.spec_get("variants"@) {
                Some(Json::Array(items)) => match parsed_texts(items@) {
                    Some(variants) => if 0 < variants.len() <= MAX_VARIANTS {
                        Some(SchemaModel::Enum { variants })
                    } else {
                        None
                    },
                    None => None,
                },
                _ => None,
            }
        } else {
            None
        },
        _ => None,
    }
}

/// The names of the schemas that a schema document of a record type refers
/// to: the strings of its array `dependencies`, none where it has no such
/// member. A document of another type refers to none.
pub open spec fn declared_dependencies(document: Json) -> Option<Seq<Seq<char>>> {
    match document.spec_get("type"@) {
        Some(Json::String(tag)) => if tag@ == "record"@ {
            match document.spec_get("dependencies"@) {
                None => Some(Seq::empty()),
                Some(Json::Array(items)) => parsed_texts(items@),
                Some(_) => None,
            }
        } else {
            Some(Seq::empty())
        },
        _ => Some(Seq::empty()),
    }
}

/// Whether the outcome `result` of reading a schema document is the one that
/// `expected` asks for: a well-formed schema with that model, or an error
/// where there is none.
pub open spec fn schema_read(expected: Option<SchemaModel>, result: Result<Schema, String>) -> bool {
    match expected {
        Some(model) => result matches Ok(schema) && schema@ == model && schema.wf(),
        None => result is Err,
    }
}

/// The texts of the items of an array.
pub fn read_texts(items: &Vec<Json>) -> (texts: Option<Vec<String>>)
    ensures
        match parsed_texts(items@) {
            Some(expected) => texts matches Some(list) && variant_names(list@) == expected,
            None => texts is None,
        },
{
    let mut texts: Vec<String> = Vec::new();
    let mut i: usize = 0;
    proof {
        assert(items@.take(0) =~= Seq::<Json>::empty());
        assert(variant_names(texts@) =~= Seq::<Seq<char>>::empty());
    }
    while i < items.len()
        invariant
            i <= items@.len(),
            parsed_texts(items@.take(i as int)) == Some(variant_names(texts@)),
        decreases items@.len() - i,
    {
        proof {
            assert(items@.take(i + 1).drop_last() =~= items@.take(i as int));
        }
        match items[i].as_str() {
            Some(text) => {
                let ghost before = texts@;
                texts.push(text.to_owned());
                proof {
                    assert(variant_names(texts@) =~= variant_names(before).push(text@));
                }
            },
            None => {
                proof {
                    lemma_parsed_texts_fails(items@, i + 1);
                }
                return None;
            },
        }
        i = i + 1;
    }
    proof {
        assert(items@.take(i as int) =~= items@);
    }
    Some(texts)
}

/// An item that is no string among the first items leaves the array without
/// texts.
pub proof fn lemma_parsed_texts_fails(items: Seq<Json>, n: int)
    requires
        0 <= n <= items.len(),
        parsed_texts(items.take(n)) is None,
    ensures
        parsed_texts(items) is None,
    decreases items.len() - n,
{
    if n == items.len() {
        assert(items.take(n) =~= items);
    } else {
        assert(items.drop_last().take(n) =~= items.take(n));
        lemma_parsed_texts_fails(items.drop_last(), n);
    }
}

/// A member that describes no field among the first members leaves the
/// record without fields.
pub proof fn lemma_parsed_fields_fails(
    named: Seq<(Seq<char>, SchemaModel)>,
    members: Seq<(String, Json)>,
    n: int,
)
    requires
        0 <= n <= members.len(),
        parsed_fields(named, members.take(n)) is None,
    ensures
        parsed_fields(named, members) is None,
    decreases members.len() - n,
{
    if n == members.len() {
        assert(members.take(n) =~= members);
    } else {
        assert(members.drop_last().take(n) =~= members.take(n));
        lemma_parsed_fields_fails(named, members.drop_last(), n);
    }
}

/// The names of the schemas that the schema document `document` refers to.
pub fn dependency_names(document: &Json) -> (r: Result<Vec<String>, String>)
    ensures
        match declared_dependencies(*document) {
            Some(expected) => r matches Ok(names) && variant_names(names@) == expected,
            None => r is Err,
        },
{
    let empty: Vec<String> = Vec::new();
    proof {
        assert(variant_names(empty@) =~= Seq::<Seq<char>>::empty());
    }
    let is_record: bool = match document.get("type") {
        Some(Json::String(tag)) => same_text(tag.as_str(), "record"),
        _ => false,
    };
    if !is_record {
        return Ok(empty);
    }
    match document.get("dependencies") {
        None => Ok(empty),
        Some(Json::Array(items)) => match read_texts(items) {
            Some(names) => Ok(names),
            None => Err("Dependency is not a string".to_owned()),
        },
        Some(_) => Err("Dependencies are not an array".to_owned()),
    }
}

impl RecordSchema {
    /// Takes the field `field` in behind the fields the schema has. A field
    /// whose name the schema has already, or with which the widths no longer
    /// add up to a 32-bit number, is refused, and the schema stays as it is.
    pub fn push_field(&mut self, field: Field) -> (r: Result<(), String>)
        requires
            old(self).wf(),
            field.wf(),
        ensures
            final(self).wf(),
            final(self).dependency_models() == old(self).dependency_models(),
            old(self)@ is Record,
            can_take(old(self)@->fields, field@) ==> r is Ok && final(self)@ == (
                SchemaModel::Record { fields: old(self)@->fields.push(field@) }),
            !can_take(old(self)@->fields, field@) ==> r is Err && final(self)@ == old(self)@,
    {
        let ghost models = field_models(self.fields@);
        let total: u32 = sum_of_widths(&self.fields);
        let width: u32 = field.bits();
        proof {
            lemma_field_models(self.fields@);
            field.lemma_model();
        }
        if width > u32::MAX - total {
            return Err(about("Schema is too wide with field", field.name()));
        }
        let mut i: usize = 0;
        while i < self.fields.len()
            invariant
                i <= self.fields@.len(),
                models == field_models(self.fields@),
                models.len() == self.fields@.len(),
                forall|k: int|
                    0 <= k < self.fields@.len() ==> (#[trigger] models[k]) == self.fields@[k]@,
                forall|k: int| 0 <= k < i ==> (#[trigger] models[k]).name != field@.name,
                *self == *old(self),
                self.wf(),
            decreases self.fields@.len() - i,
        {
            if same_text(self.fields[i].name(), field.name()) {
                assert(models[i as int].name == field@.name);
                return Err(about("Field occurs twice", field.name()));
            }
            i = i + 1;
        }
        let ghost before = self.fields@;
        self.fields.push(field);
        proof {
            assert(self.fields@.drop_last() =~= before);
            lemma_field_models(self.fields@);
            assert(field_models(self.fields@) =~= models.push(field@));
            let after = models.push(field@);
            assert forall|a: int, b: int| 0 <= a < b < after.len() implies (#[trigger] after[a]).name
                != (#[trigger] after[b]).name by {
                if b < models.len() {
                    assert(models[a].name != models[b].name);
                } else {
                    assert(models[a].name != field@.name);
                }
            }
            assert(after.drop_last() =~= models);
            assert forall|k: int| 0 <= k < after.len() implies (#[trigger] after[k]).wf() by {
                if k < models.len() {
                    assert(before[k].wf());
                    assert(models[k] == before[k]@);
                    before[k].lemma_model();
                }
            }
            assert forall|k: int| 0 <= k < self.fields@.len() implies (
            #[trigger] self.fields@[k]).wf() by {
                if k < before.len() {
                    assert(before[k].wf());
                }
            }
        }
        Ok(())
    }
}

/// What the failure to read a field says: the name of the field, then why
/// it describes no field.
pub open spec fn field_failure_message(name: Seq<char>, reason: Seq<char>) -> Seq<char> {
    "Failed to parse field '"@ + name + "': "@ + reason
}

/// The text of the error for a member of `fields` that describes no field.
pub fn field_failure_text(name: &str, reason: &str) -> (text: String)
    ensures
        text@ == field_failure_message(name@, reason@),
{
    let mut text = String::from_str("Failed to parse field '");
    text.append(name);
    text.append("': ");
    text.append(reason);
    text
}

impl Schema {
    /// The schema that the schema document `document` describes, its fields
    /// referring to the schemas `dependencies` by name. A document that
    /// describes no schema is refused.
    pub fn from_document(document: &Json, dependencies: Vec<(String, Schema)>) -> (r: Result<
        Schema,
        String,
    >)
        requires
            all_wf(dependencies@),
        ensures
            schema_read(parsed_schema(named_models(dependencies@), *document), r),
    {
        let tag: &str = match document.get("type") {
            Some(Json::String(tag)) => tag.as_str(),
            _ => {
                return Err("Schema type is not a string".to_owned());
            },
        };
        if same_text(tag, "record") {
            let members: &Vec<(String, Json)> = match document.get("fields") {
                Some(Json::Object(members)) => members,
                _ => {
                    return Err("Fields are not an object".to_owned());
                },
            };
            let ghost named = named_models(dependencies@);
            let mut schema = RecordSchema::new(dependencies);
            let mut i: usize = 0;
            proof {
                assert(members@.take(0) =~= Seq::<(String, Json)>::empty());
            }
            while i < members.len()
                invariant
                    i <= members@.len(),
                    schema.wf(),
                    schema.dependency_models() == named,
                    schema@ is Record,
                    parsed_fields(named, members@.take(i as int)) == Some(schema@->fields),
                    named == named_models(dependencies@),
                    document.spec_get("fields"@) == Some(Json::Object(*members)),
                    document.spec_get("type"@) matches Some(Json::String(text)) && text@
                        == "record"@,
                decreases members@.len() - i,
            {
                proof {
                    assert(members@.take(i + 1).drop_last() =~= members@.take(i as int));
                }
                let field = match schema.parse_field(members[i].0.as_str(), &members[i].1) {
                    Ok(field) => field,
                    Err(message) => {
                        proof {
                            lemma_parsed_fields_fails(named, members@, i + 1);
                        }
                        return Err(field_failure_text(members[i].0.as_str(), message.as_str()));
                    },
                };
                match schema.push_field(field) {
                    Ok(()) => {},
                    Err(message) => {
                        proof {
                            lemma_parsed_fields_fails(named, members@, i + 1);
                        }
                        return Err(message);
                    },
                }
                i = i + 1;
            }
            proof {
                assert(members@.take(i as int) =~= members@);
            }
            Ok(Schema::Record(schema))
        } else if same_text(tag, "enum") {
            let items: &Vec<Json> = match document.get("variants") {
                Some(Json::Array(items)) => items,
                _ => {
                    return Err("Variants are not an array".to_owned());
                },
            };
            let variants: Vec<String> = match read_texts(items) {
                Some(variants) => variants,
                None => {
                    return Err("Variant is not a string".to_owned());
                },
            };
            if variants.len() == 0 {
                return Err("Enumeration has no variants".to_owned());
            }
            if variants.len() > MAX_VARIANTS {
                return Err("Enumeration has more than 255 variants".to_owned());
            }
            Ok(Schema::Enum(EnumSchema { variants }))
        } else {
            Err(about("Unsupported schema type", tag))
        }
    }

    /// The schema that the text of a schema document describes, its fields
    /// referring to the schemas `dependencies` by name. A text that is no
    /// JSON document, or a document that describes no schema, is refused.
    pub fn parse(text: &str, dependencies: Vec<(String, Schema)>) -> (r: Result<Schema, String>)
        requires
            all_wf(dependencies@),
        ensures
            match crate::json::json_document(text@) {
                Some(document) => schema_read(
                    parsed_schema(named_models(dependencies@), document),
                    r,
                ),
                None => r is Err,
            },
    {
        match crate::json::parse_json(text) {
            Some(document) => Schema::from_document(&document, dependencies),
            None => Err("Failed to parse schema file as JSON".to_owned()),
        }
    }
}


/// The text of the first of the schema files `files` that is named `name`.
pub open spec fn source_of(files: Seq<(String, String)>, name: Seq<char>) -> Option<Seq<char>>
    decreases files.len(),
{
    if files.len() == 0 {
        None
    } else if files[0].0@ == name {
        Some(files[0].1@)
    } else {
        source_of(files.drop_first(), name)
    }
}

/// The schema that the schema file named `name` describes, the schemas it
/// refers to being loaded from the files of their names, at most `depth`
/// files deep. There is none where a file is missing or describes no schema,
/// or where the files refer to each other deeper than `depth`.
pub open spec fn loaded_schema(files: Seq<(String, String)>, name: Seq<char>, depth: nat) -> Option<
    SchemaModel,
>
    decreases depth, 0nat,
{
    if depth == 0 {
        None
    } else {
        match source_of(files, name) {
            None => None,
            Some(text) => match crate::json::json_document(text) {
                None => None,
                Some(document) => match declared_dependencies(document) {
                    None => None,
                    Some(names) => match loaded_schemas(files, names, (depth - 1) as nat) {
                        None => None,
                        Some(named) => parsed_schema(named, document),
                    },
                },
            },
        }
    }
}

/// The schemas that the schema files named `names` describe, with their
/// names, where every one of them describes one.
pub open spec fn loaded_schemas(files: Seq<(String, String)>, names: Seq<Seq<char>>, depth: nat)
    -> Option<Seq<(Seq<char>, SchemaModel)>>
    decreases depth, names.len(),
{
    if names.len() == 0 {
        Some(Seq::empty())
    } else {
        match (
            loaded_schemas(files, names.drop_last(), depth),
            loaded_schema(files, names.last(), depth),
        ) {
            (Some(front), Some(schema)) => Some(front.push((names.last(), schema))),
            _ => None,
        }
    }
}

/// A schema file that cannot be loaded among the first of `names` leaves the
/// whole list without schemas.
pub proof fn lemma_loaded_schemas_fails(
    files: Seq<(String, String)>,
    names: Seq<Seq<char>>,
    depth: nat,
    n: int,
)
    requires
        0 <= n <= names.len(),
        loaded_schemas(files, names.take(n), depth) is None,
    ensures
        loaded_schemas(files, names, depth) is None,
    decreases names.len() - n,
{
    if n == names.len() {
        assert(names.take(n) =~= names);
    } else {
        assert(names.drop_last().take(n) =~= names.take(n));
        lemma_loaded_schemas_fails(files, names.drop_last(), depth, n);
    }
}

/// The text of the first of the schema files `files` that is named `name`.
pub fn find_source<'a>(files: &'a Vec<(String, String)>, name: &str) -> (found: Option<&'a String>)
    ensures
        match source_of(files@, name@) {
            Some(text) => found matches Some(source) && source@ == text,
            None => found is None,
        },
{
    let mut i: usize = 0;
    proof {
        assert(files@.skip(0) =~= files@);
    }
    while i < files.len()
        invariant
            i <= files@.len(),
            source_of(files@, name@) == source_of(files@.skip(i as int), name@),
        decreases files@.len() - i,
    {
        proof {
            assert(files@.skip(i as int).drop_first() =~= files@.skip(i + 1));
        }
        if same_text(files[i].0.as_str(), name) {
            return Some(&files[i].1);
        }
        i = i + 1;
    }
    None
}

/// The schema that the schema file named `name` among `files` describes, at
/// most `depth` files deep.
pub fn load_schema(files: &Vec<(String, String)>, name: &str, depth: usize) -> (r: Result<
    Schema,
    String,
>)
    ensures
        schema_read(loaded_schema(files@, name@, depth as nat), r),
    decreases depth, 0nat,
{
    if depth == 0 {
        return Err(about("Schema files refer to each other in a circle at", name));
    }
    let text: &String = match find_source(files, name) {
        Some(text) => text,
        None => {
            return Err(about("Schema file not found for", name));
        },
    };
    let document: Json = match crate::json::parse_json(text.as_str()) {
        Some(document) => document,
        None => {
            return Err(about("Failed to parse schema file as JSON", name));
        },
    };
    let names: Vec<String> = match dependency_names(&document) {
        Ok(names) => names,
        Err(message) => {
            return Err(message);
        },
    };
    let ghost wanted = variant_names(names@);
    let mut dependencies: Vec<(String, Schema)> = Vec::new();
    let mut i: usize = 0;
    proof {
        assert(wanted.take(0) =~= Seq::<Seq<char>>::empty());
    }
    while i < names.len()
        invariant
            i <= names@.len(),
            depth > 0,
            wanted == variant_names(names@),
            all_wf(dependencies@),
            loaded_schemas(files@, wanted.take(i as int), (depth - 1) as nat) == Some(
                named_models(dependencies@),
            ),
            source_of(files@, name@) == Some(text@),
            crate::json::json_document(text@) == Some(document),
            declared_dependencies(document) == Some(wanted),
        decreases names@.len() - i,
    {
        proof {
            assert(wanted.take(i + 1).drop_last() =~= wanted.take(i as int));
            assert(wanted.take(i + 1).last() == names@[i as int]@);
        }
        let schema = match load_schema(files, names[i].as_str(), depth - 1) {
            Ok(schema) => schema,
            Err(message) => {
                proof {
                    lemma_loaded_schemas_fails(files@, wanted, (depth - 1) as nat, i + 1);
                }
                return Err(message);
            },
        };
        let ghost before = dependencies@;
        dependencies.push((names[i].clone(), schema));
        proof {
            assert(dependencies@.drop_last() =~= before);
        }
        i = i + 1;
    }
    proof {
        assert(wanted.take(i as int) =~= wanted);
    }
    Schema::from_document(&document, dependencies)
}

impl Schema {
    /// The schema that the schema file named `name` among `files` describes.
    /// The schemas it refers to are loaded from the files of their names. A
    /// missing file, a file that describes no schema, and files that refer to
    /// each other in a circle are refused.
    pub fn load(files: &Vec<(String, String)>, name: &str) -> (r: Result<Schema, String>)
        ensures
            schema_read(loaded_schema(files@, name@, files@.len()), r),
    {
        load_schema(files, name, files.len())
    }
}

} // verus!
