//! The code generator: the source text of the routines that encode and decode
//! the values of a host type against its schema.
//!
//! The routines hold no schema. Every width and every bound stands in their
//! text as a number, and every field is written and read by a call of the
//! function of this library that handles its kind.

use vstd::prelude::*;
use vstd::string::StringExecFns;
use crate::field::{
    field_models,
    lemma_field_models,
    Field,
    FieldModel,
    FieldTrait,
    KindModel,
};
use crate::text::{decimal_text, push_decimal, push_digits, push_quoted, quoted_text};
use crate::json::same_text;
use crate::schema::{variant_names, RecordSchema, Schema, SchemaModel};
use crate::field::total_width;
use crate::utils::{
    camel_of,
    camel_to_snake_case,
    has_bytes_field,
    holds_bytes,
    record_fits,
    same_names,
    snake_of,
    snake_to_camel_case,
    validate_enum_schema,
    validate_record_schema,
    StructField,
};

verus! {

/// A statement that calls the function `function` of the encoder on the
/// writer with the arguments `arguments`, and hands an error on.
pub open spec fn write_call(function: Seq<char>, arguments: Seq<char>) -> Seq<char> {
    "::quops::encoder::"@ + function + "(&mut writer, "@ + arguments + ")?;\n"@
}

/// An optional length as an expression of the host language.
pub open spec fn option_text(length: Option<nat>) -> Seq<char> {
    match length {
        Some(value) => "Some("@ + decimal_text(value as int) + ")"@,
        None => "None"@,
    }
}

/// The numbers that the call for a field ends with: its payload width and its
/// name between double quotes.
pub open spec fn width_and_name(field: FieldModel) -> Seq<char> {
    decimal_text(field.payload_width() as int) + ", "@ + quoted_text(field.name)
}

/// The expression that converts the host integer `var` to 64 bits and keeps
/// the outcome: the number, or that no 64-bit number holds the value. No host
/// value is cut before its bounds are tested.
pub open spec fn host_number_text(var: Seq<char>) -> Seq<char> {
    "i64::try_from("@ + var + ")"@
}

/// The statements that write the present value `var` of the field `field`,
/// by the kind of the field.
pub open spec fn encode_payload_text(field: FieldModel, var: Seq<char>) -> Seq<char>
    decreases field, 1nat,
{
    match field.kind {
        KindModel::Int { min: Some(min), max: Some(max) } => write_call(
            "write_bounded_host"@,
            host_number_text(var) + ", "@ + decimal_text(min) + ", "@ + decimal_text(max) + ", "@
                + width_and_name(field),
        ),
        KindModel::Int { .. } => write_call(
            "write_unbounded_host"@,
            host_number_text(var) + ", "@ + quoted_text(field.name),
        ),
        KindModel::Boolean => write_call("write_bool"@, var),
        KindModel::Enum { variants } => write_call(
            "write_ordinal"@,
            "::quops::traits::AsU64::as_u64(&"@ + var + ")?, "@ + decimal_text(variants as int)
                + ", "@ + width_and_name(field),
        ),
        KindModel::Bytes { max_length } => write_call(
            "write_length"@,
            var + ".len(), "@ + option_text(max_length) + ", "@ + width_and_name(field),
        ) + "buffers.push(&"@ + var + ");\n"@,
        KindModel::Record { fields } => encode_members_text(fields, var),
        KindModel::Array { items, .. } => write_call(
            "write_length"@,
            var + ".len(), None, "@ + width_and_name(field),
        ) + "for item in "@ + var + ".iter() {\n"@ + encode_field_text(*items, "(*item)"@) + "}\n"@,
    }
}

/// The statements that write the value `var` of the field `field`: where the
/// field may be absent, a presence bit, and the payload only where the value
/// is present.
pub open spec fn encode_field_text(field: FieldModel, var: Seq<char>) -> Seq<char>
    decreases field, 2nat,
{
    if field.nullable {
        "if let Some(value) = ("@ + var + ").as_ref() {\n"@ + write_call("write_bool"@, "true"@)
            + encode_payload_text(field, "(*value)"@) + "} else {\n"@ + write_call(
            "write_bool"@,
            "false"@,
        ) + "}\n"@
    } else {
        encode_payload_text(field, var)
    }
}

/// The statements that write the fields `fields` of the record `var`, in
/// declaration order, each under its snake-case name.
pub open spec fn encode_members_text(fields: Seq<FieldModel>, var: Seq<char>) -> Seq<char>
    decreases fields, 0nat,
{
    if fields.len() == 0 {
        Seq::empty()
    } else {
        encode_members_text(fields.drop_last(), var) + encode_field_text(
            fields.last(),
            var + "."@ + snake_of(fields.last().name, true),
        )
    }
}

/// A statement that calls the function `function` of the encoder.
pub fn emit_write_call(function: &str, arguments: &str) -> (text: String)
    ensures
        text@ == write_call(function@, arguments@),
{
    let mut text = String::from_str("::quops::encoder::");
    text.append(function);
    text.append("(&mut writer, ");
    text.append(arguments);
    text.append(")?;\n");
    text
}

/// The expression that converts the host integer `var` to 64 bits and keeps
/// the outcome.
pub fn emit_host_number(var: &str) -> (text: String)
    ensures
        text@ == host_number_text(var@),
{
    let mut text = String::from_str("i64::try_from(");
    text.append(var);
    text.append(")");
    text
}

/// An optional length as an expression of the host language.
pub fn emit_option(length: Option<u32>) -> (text: String)
    ensures
        text@ == option_text(crate::field::length_model(length)),
{
    match length {
        Some(value) => {
            let mut text = String::from_str("Some(");
            push_decimal(&mut text, value as i64);
            text.append(")");
            text
        },
        None => String::from_str("None"),
    }
}

/// The payload width and the name of a field, as the last arguments of a
/// call.
pub fn emit_width_and_name(field: &Field) -> (text: String)
    requires
        field.wf(),
    ensures
        text@ == width_and_name(field@),
{
    let mut text = String::new();
    push_decimal(&mut text, field.payload_bits() as i64);
    text.append(", ");
    push_quoted(&mut text, field.name());
    proof {
        assert(text@ =~= width_and_name(field@));
    }
    text
}

/// The statements that write the value `var` of the field `field`.
pub fn generate_encode_field(field: &Field, var: &str) -> (text: String)
    requires
        field.wf(),
    ensures
        text@ == encode_field_text(field@, var@),
    decreases field@, 2nat,
{
    if field.nullable() {
        let mut text = String::from_str("if let Some(value) = (");
        text.append(var);
        text.append(").as_ref() {\n");
        text.append(emit_write_call("write_bool", "true").as_str());
        text.append(generate_encode_payload(field, "(*value)").as_str());
        text.append("} else {\n");
        text.append(emit_write_call("write_bool", "false").as_str());
        text.append("}\n");
        text
    } else {
        generate_encode_payload(field, var)
    }
}

/// The statements that write the present value `var` of the field `field`.
pub fn generate_encode_payload(field: &Field, var: &str) -> (text: String)
    requires
        field.wf(),
    ensures
        text@ == encode_payload_text(field@, var@),
    decreases field@, 1nat,
{
    proof {
        field.lemma_model();
    }
    match field {
        Field::Int(int_field) => match (int_field.min_bound(), int_field.max_bound()) {
            (Some(min), Some(max)) => {
                let mut arguments = emit_host_number(var);
                arguments.append(", ");
                push_decimal(&mut arguments, min as i64);
                arguments.append(", ");
                push_decimal(&mut arguments, max as i64);
                arguments.append(", ");
                arguments.append(emit_width_and_name(field).as_str());
                emit_write_call("write_bounded_host", arguments.as_str())
            },
            _ => {
                let mut arguments = emit_host_number(var);
                arguments.append(", ");
                push_quoted(&mut arguments, field.name());
                emit_write_call("write_unbounded_host", arguments.as_str())
            },
        },
        Field::Boolean(_) => emit_write_call("write_bool", var),
        Field::Enum(enum_field) => {
            let mut arguments = String::from_str("::quops::traits::AsU64::as_u64(&");
            arguments.append(var);
            arguments.append(")?, ");
            push_decimal(&mut arguments, enum_field.variant_count() as i64);
            arguments.append(", ");
            arguments.append(emit_width_and_name(field).as_str());
            emit_write_call("write_ordinal", arguments.as_str())
        },
        Field::Bytes(bytes_field) => {
            let mut arguments = String::from_str(var);
            arguments.append(".len(), ");
            arguments.append(emit_option(bytes_field.longest()).as_str());
            arguments.append(", ");
            arguments.append(emit_width_and_name(field).as_str());
            let mut text = emit_write_call("write_length", arguments.as_str());
            text.append("buffers.push(&");
            text.append(var);
            text.append(");\n");
            text
        },
        Field::Record(record_field) => {
            let fields = record_field.sub_fields();
            proof {
                assert(field@.kind->fields == field_models(fields@));
                assert(decreases_to!(field@ => field@.kind->fields));
            }
            generate_encode_members(fields, var)
        },
        Field::Array(array_field) => {
            let item_field = array_field.item_field();
            proof {
                assert(field@.kind->items == Box::new(item_field@));
                assert(decreases_to!(field@ => field@.kind->items));
            }
            let mut arguments = String::from_str(var);
            arguments.append(".len(), None, ");
            arguments.append(emit_width_and_name(field).as_str());
            let mut text = emit_write_call("write_length", arguments.as_str());
            text.append("for item in ");
            text.append(var);
            text.append(".iter() {\n");
            text.append(generate_encode_field(item_field, "(*item)").as_str());
            text.append("}\n");
            text
        },
    }
}

/// The statements that write the fields `fields` of the record `var`.
pub fn generate_encode_members(fields: &Vec<Field>, var: &str) -> (text: String)
    requires
        forall|i: int| 0 <= i < fields@.len() ==> (#[trigger] fields@[i]).wf(),
    ensures
        text@ == encode_members_text(field_models(fields@), var@),
    decreases field_models(fields@), 0nat,
{
    let ghost models = field_models(fields@);
    let mut text = String::new();
    let mut i: usize = 0;
    proof {
        lemma_field_models(fields@);
        assert(models.take(0) =~= Seq::<FieldModel>::empty());
    }
    while i < fields.len()
        invariant
            i <= fields@.len(),
            models == field_models(fields@),
            models.len() == fields@.len(),
            forall|k: int| 0 <= k < fields@.len() ==> (#[trigger] fields@[k]).wf(),
            forall|k: int| 0 <= k < fields@.len() ==> (#[trigger] models[k]) == fields@[k]@,
            text@ == encode_members_text(models.take(i as int), var@),
        decreases fields@.len() - i,
    {
        proof {
            assert(models.take(i + 1).drop_last() =~= models.take(i as int));
            assert(models[i as int] == fields@[i as int]@);
            vstd::seq::axiom_seq_index_decreases(models, i as int);
        }
        let mut member = String::from_str(var);
        member.append(".");
        member.append(camel_to_snake_case(fields[i].name()).as_str());
        text.append(generate_encode_field(&fields[i], member.as_str()).as_str());
        i = i + 1;
    }
    proof {
        assert(models.take(i as int) =~= models);
    }
    text
}


/// An expression that calls the function `function` of the decoder on the
/// reader with the further arguments `arguments`, and hands an error on.
pub open spec fn read_call(function: Seq<char>, arguments: Seq<char>) -> Seq<char> {
    "::quops::decoder::"@ + function + "(&mut reader"@ + arguments + ")?"@
}

/// The expression that reads the present value of the field `field`, by the
/// kind of the field. A record is built as a value of the type `host_type`.
pub open spec fn decode_payload_text(field: FieldModel, host_type: Seq<char>) -> Seq<char>
    decreases field, 1nat,
{
    match field.kind {
        KindModel::Int { min: Some(min), max: Some(max) } => read_call(
            "read_bounded_int"@,
            ", "@ + decimal_text(min) + ", "@ + decimal_text(max) + ", "@ + width_and_name(field),
        ) + ".try_into()?"@,
        KindModel::Int { .. } => read_call("read_unbounded_int"@, ""@) + ".try_into()?"@,
        KindModel::Boolean => read_call("read_bool"@, ""@),
        KindModel::Enum { .. } => "("@ + read_call(
            "take_number"@,
            ", "@ + decimal_text(field.payload_width() as int),
        ) + " as u8).try_into()?"@,
        KindModel::Bytes { .. } => read_call(
            "read_bytes"@,
            ", &mut buffers_end_index, "@ + width_and_name(field),
        ),
        KindModel::Record { fields } => host_type + " {\n"@ + decode_members_text(
            fields,
            host_type,
        ) + "}"@,
        KindModel::Array { items, .. } => "{\nlet length = "@ + read_call(
            "take_number"@,
            ", "@ + decimal_text(field.payload_width() as int),
        ) + " as usize;\nlet mut items = Vec::new();\nfor _ in 0..length {\nlet item = { "@
            + decode_field_text(*items, host_type)
            + " };\nitems.push(item);\n}\nitems\n}"@,
    }
}

/// The expression that reads the value of the field `field`: where the field
/// may be absent, a presence bit, and the payload only where it is set.
pub open spec fn decode_field_text(field: FieldModel, host_type: Seq<char>) -> Seq<char>
    decreases field, 2nat,
{
    if field.nullable {
        "if "@ + read_call("read_bool"@, ""@) + " {\nlet value = { "@ + decode_payload_text(
            field,
            host_type,
        ) + " };\nSome(value)\n} else {\nNone\n}"@
    } else {
        decode_payload_text(field, host_type)
    }
}

/// The members of a structure expression that read the fields `fields`, in
/// declaration order.
pub open spec fn decode_members_text(fields: Seq<FieldModel>, host_type: Seq<char>) -> Seq<char>
    decreases fields, 3nat,
{
    if fields.len() == 0 {
        Seq::empty()
    } else {
        decode_members_text(fields.drop_last(), host_type) + snake_of(fields.last().name, true)
            + ": { "@ + decode_field_text(fields.last(), host_type) + " },\n"@
    }
}

/// An expression that calls the function `function` of the decoder.
pub fn emit_read_call(function: &str, arguments: &str) -> (text: String)
    ensures
        text@ == read_call(function@, arguments@),
{
    let mut text = String::from_str("::quops::decoder::");
    text.append(function);
    text.append("(&mut reader");
    text.append(arguments);
    text.append(")?");
    text
}

/// The expression that reads a number of the payload width of `field`.
fn emit_take_number(field: &Field) -> (text: String)
    requires
        field.wf(),
    ensures
        text@ == read_call(
            "take_number"@,
            ", "@ + decimal_text(field@.payload_width() as int),
        ),
{
    let mut arguments = String::from_str(", ");
    push_decimal(&mut arguments, field.payload_bits() as i64);
    emit_read_call("take_number", arguments.as_str())
}

/// The expression that reads the value of the field `field`.
pub fn generate_decode_field(field: &Field, field_type: &str) -> (text: String)
    requires
        field.wf(),
    ensures
        text@ == decode_field_text(field@, field_type@),
    decreases field@, 2nat,
{
    if field.nullable() {
        let mut text = String::from_str("if ");
        text.append(emit_read_call("read_bool", "").as_str());
        text.append(" {\nlet value = { ");
        text.append(generate_decode_payload(field, field_type).as_str());
        text.append(" };\nSome(value)\n} else {\nNone\n}");
        text
    } else {
        generate_decode_payload(field, field_type)
    }
}

/// The expression that reads the present value of the field `field`.
pub fn generate_decode_payload(field: &Field, field_type: &str) -> (text: String)
    requires
        field.wf(),
    ensures
        text@ == decode_payload_text(field@, field_type@),
    decreases field@, 1nat,
{
    proof {
        field.lemma_model();
    }
    match field {
        Field::Int(int_field) => match (int_field.min_bound(), int_field.max_bound()) {
            (Some(min), Some(max)) => {
                let mut arguments = String::from_str(", ");
                push_decimal(&mut arguments, min as i64);
                arguments.append(", ");
                push_decimal(&mut arguments, max as i64);
                arguments.append(", ");
                arguments.append(emit_width_and_name(field).as_str());
                let mut text = emit_read_call("read_bounded_int", arguments.as_str());
                text.append(".try_into()?");
                text
            },
            _ => {
                let mut text = emit_read_call("read_unbounded_int", "");
                text.append(".try_into()?");
                text
            },
        },
        Field::Boolean(_) => emit_read_call("read_bool", ""),
        Field::Enum(_) => {
            let mut text = String::from_str("(");
            text.append(emit_take_number(field).as_str());
            text.append(" as u8).try_into()?");
            text
        },
        Field::Bytes(_) => {
            let mut arguments = String::from_str(", &mut buffers_end_index, ");
            arguments.append(emit_width_and_name(field).as_str());
            emit_read_call("read_bytes", arguments.as_str())
        },
        Field::Record(record_field) => {
            let fields = record_field.sub_fields();
            proof {
                assert(field@.kind->fields == field_models(fields@));
                assert(decreases_to!(field@ => field@.kind->fields));
            }
            let mut text = String::from_str(field_type);
            text.append(" {\n");
            text.append(generate_decode_members(fields, field_type).as_str());
            text.append("}");
            text
        },
        Field::Array(array_field) => {
            let item_field = array_field.item_field();
            proof {
                assert(field@.kind->items == Box::new(item_field@));
                assert(decreases_to!(field@ => field@.kind->items));
            }
            let mut text = String::from_str("{\nlet length = ");
            text.append(emit_take_number(field).as_str());
            text.append(
                " as usize;\nlet mut items = Vec::new();\nfor _ in 0..length {\nlet item = { ",
            );
            text.append(generate_decode_field(item_field, field_type).as_str());
            text.append(" };\nitems.push(item);\n}\nitems\n}");
            text
        },
    }
}

/// Appends to `text` the member of a structure expression that reads the
/// field `field`.
pub fn push_decode_member(text: &mut String, field: &Field, field_type: &str)
    requires
        field.wf(),
    ensures
        final(text)@ == old(text)@ + snake_of(field@.name, true) + ": { "@ + decode_field_text(
            field@,
            field_type@,
        ) + " },\n"@,
    decreases field@, 3nat,
{
    text.append(camel_to_snake_case(field.name()).as_str());
    text.append(": { ");
    text.append(generate_decode_field(field, field_type).as_str());
    text.append(" },\n");
}

/// The members of a structure expression that read the fields `fields`.
pub fn generate_decode_members(fields: &Vec<Field>, field_type: &str) -> (text: String)
    requires
        forall|i: int| 0 <= i < fields@.len() ==> (#[trigger] fields@[i]).wf(),
    ensures
        text@ == decode_members_text(field_models(fields@), field_type@),
    decreases field_models(fields@), 4nat,
{
    let ghost models = field_models(fields@);
    let mut text = String::new();
    let mut i: usize = 0;
    proof {
        lemma_field_models(fields@);
        assert(models.take(0) =~= Seq::<FieldModel>::empty());
    }
    while i < fields.len()
        invariant
            i <= fields@.len(),
            models == field_models(fields@),
            models.len() == fields@.len(),
            forall|k: int| 0 <= k < fields@.len() ==> (#[trigger] fields@[k]).wf(),
            forall|k: int| 0 <= k < fields@.len() ==> (#[trigger] models[k]) == fields@[k]@,
            text@ == decode_members_text(models.take(i as int), field_type@),
        decreases fields@.len() - i,
    {
        proof {
            assert(models.take(i + 1).drop_last() =~= models.take(i as int));
            assert(models[i as int] == fields@[i as int]@);
            vstd::seq::axiom_seq_index_decreases(models, i as int);
        }
        push_decode_member(&mut text, &fields[i], field_type);
        i = i + 1;
    }
    proof {
        assert(models.take(i as int) =~= models);
    }
    text
}


/// What a host type is declared as.
#[derive(Debug)]
pub enum TypeData {
    /// A structure, with its fields in declaration order.
    Struct(Vec<StructField>),
    /// An enumeration, with the names of its variants in declaration order.
    Enum(Vec<String>),
    /// Anything else.
    Other,
}

/// The declaration of a host type: its name and what it is declared as.
#[derive(Debug)]
pub struct TypeDecl {
    pub name: String,
    pub data: TypeData,
}

/// An item that stops the build of the host program with `message`.
pub open spec fn compile_error_text(message: Seq<char>) -> Seq<char> {
    "compile_error!("@ + quoted_text(message) + ");\n"@
}

/// Whether `text` is an item that stops the build of the host program.
pub open spec fn is_compile_error(text: Seq<char>) -> bool {
    exists|message: Seq<char>| text == compile_error_text(message)
}

/// An item that stops the build of the host program with `message`.
pub fn stop_build(message: &str) -> (text: String)
    ensures
        text@ == compile_error_text(message@),
        is_compile_error(text@),
{
    let mut text = String::from_str("compile_error!(");
    push_quoted(&mut text, message);
    text.append(");\n");
    proof {
        assert(text@ == compile_error_text(message@));
    }
    text
}

/// An item that stops the build of the host program with `reason` followed
/// by `detail`.
fn stop_build_with(reason: &str, detail: &str) -> (text: String)
    ensures
        is_compile_error(text@),
{
    let message = String::from_str(reason).concat(detail);
    stop_build(message.as_str())
}

/// The terms that the capacity hint holds for the arrays among `fields` that
/// cannot be absent: the width of an item times the count of items.
pub open spec fn array_terms_text(fields: Seq<FieldModel>) -> Seq<char>
    decreases fields.len(),
{
    if fields.len() == 0 {
        Seq::empty()
    } else {
        let last = fields.last();
        array_terms_text(fields.drop_last()) + match last.kind {
            KindModel::Array { items, .. } if !last.nullable => " + "@ + decimal_text(
                items.width() as int,
            ) + " * self."@ + snake_of(last.name, true) + ".len()"@,
            _ => Seq::empty(),
        }
    }
}

/// The terms that the capacity hint holds for the byte sequences among
/// `fields` that cannot be absent: their lengths.
pub open spec fn bytes_terms_text(fields: Seq<FieldModel>) -> Seq<char>
    decreases fields.len(),
{
    if fields.len() == 0 {
        Seq::empty()
    } else {
        let last = fields.last();
        bytes_terms_text(fields.drop_last()) + if last.kind is Bytes && !last.nullable {
            " + self."@ + snake_of(last.name, true) + ".len()"@
        } else {
            Seq::empty()
        }
    }
}

/// The capacity hint of an encode routine: the bytes that the widths of the
/// fields and the items of the arrays add up to, and the lengths of the byte
/// sequences.
pub open spec fn capacity_text(fields: Seq<FieldModel>) -> Seq<char> {
    "(("@ + decimal_text(total_width(fields) as int) + array_terms_text(fields) + " + 7) / 8)"@
        + bytes_terms_text(fields)
}

/// The encode routine of the structure `name` whose fields mirror `fields`.
pub open spec fn encode_struct_text(name: Seq<char>, fields: Seq<FieldModel>) -> Seq<char> {
    "impl ::quops::traits::Encode for "@ + name
        + " {\nfn encode(&self) -> Result<Vec<u8>, ::quops::EncodeError> {\nlet total_bytes: usize = "@
        + capacity_text(fields)
        + ";\nlet mut writer = ::quops::BitWriter::with_capacity(total_bytes);\n"@ + (if holds_bytes(
        fields,
    ) {
        "let mut buffers: Vec<&Vec<u8>> = Vec::new();\n"@
    } else {
        ""@
    }) + encode_members_text(fields, "self"@) + "let mut bin = writer.into_bytes();\n"@
        + (if holds_bytes(fields) {
        "for buf in buffers.iter().rev() {\nbin.extend_from_slice(buf);\n}\n"@
    } else {
        ""@
    }) + "Ok(bin)\n}\n}\n"@
}

/// The arms that give the variants `variants` of the enumeration `name` their
/// ordinals, counted from zero in the order of `variants`.
pub open spec fn ordinal_arms_text(name: Seq<char>, variants: Seq<Seq<char>>) -> Seq<char>
    decreases variants.len(),
{
    if variants.len() == 0 {
        Seq::empty()
    } else {
        ordinal_arms_text(name, variants.drop_last()) + name + "::"@ + variants.last() + " => Ok("@
            + decimal_text(variants.len() - 1) + "),\n"@
    }
}

/// The routine that gives the variants of the enumeration `name` their
/// ordinals.
pub open spec fn encode_enum_text(name: Seq<char>, variants: Seq<Seq<char>>) -> Seq<char> {
    "impl ::quops::traits::AsU64 for "@ + name
        + " {\nfn as_u64(&self) -> Result<u64, ::quops::EncodeError> {\nmatch self {\n"@
        + ordinal_arms_text(name, variants) + "}\n}\n}\n"@
}

/// The arms that give the ordinals their variants of the enumeration `name`.
pub open spec fn variant_arms_text(name: Seq<char>, variants: Seq<Seq<char>>) -> Seq<char>
    decreases variants.len(),
{
    if variants.len() == 0 {
        Seq::empty()
    } else {
        variant_arms_text(name, variants.drop_last()) + decimal_text(variants.len() - 1)
            + " => Ok("@ + name + "::"@ + variants.last() + "),\n"@
    }
}

/// The routine that gives the ordinals their variants of the enumeration
/// `name`, and refuses an ordinal that names none as out of bounds.
pub open spec fn decode_enum_text(name: Seq<char>, variants: Seq<Seq<char>>) -> Seq<char> {
    "impl TryInto<"@ + name + "> for u8 {\ntype Error = ::quops::DecodeError;\nfn try_into(self) -> Result<"@
        + name + ", Self::Error> {\nmatch self {\n"@ + variant_arms_text(name, variants)
        + "_ => Err(::quops::DecodeError::OutOfBounds(format!(\"Invalid ordinal: {}\", self))),\n}\n}\n}\n"@
}

/// The text of the type that the first of the host fields `host` has whose
/// camel-case name is `name`: of its first argument where it has one, of the
/// type itself where it has none.
pub open spec fn host_type_of(host: Seq<StructField>, name: Seq<char>) -> Option<Seq<char>>
    decreases host.len(),
{
    if host.len() == 0 {
        None
    } else if camel_of(host[0].name@, false) == name {
        match host[0].ty.spec_inner() {
            Some(inner) => Some(inner.rendered()),
            None => Some(host[0].ty.rendered()),
        }
    } else {
        host_type_of(host.drop_first(), name)
    }
}

/// The members of the structure expression of a decode routine: every field
/// of `fields` with the type that the host structure gives it. There are
/// none where the host structure lacks a field.
pub open spec fn decode_top_members_text(fields: Seq<FieldModel>, host: Seq<StructField>) -> Option<
    Seq<char>,
>
    decreases fields.len(),
{
    if fields.len() == 0 {
        Some(Seq::empty())
    } else {
        match (
            decode_top_members_text(fields.drop_last(), host),
            host_type_of(host, fields.last().name),
        ) {
            (Some(front), Some(host_type)) => Some(
                front + snake_of(fields.last().name, true) + ": { "@ + decode_field_text(
                    fields.last(),
                    host_type,
                ) + " },\n"@,
            ),
            _ => None,
        }
    }
}

/// The decode routine of the structure `name` with the members `members`.
pub open spec fn decode_struct_text(name: Seq<char>, with_bytes: bool, members: Seq<char>) -> Seq<
    char,
> {
    "impl ::quops::traits::Decode for "@ + name
        + " {\nfn decode(bytes: &[u8]) -> Result<Self, ::quops::DecodeError> {\nlet mut reader = ::quops::BitReader::new(bytes);\n"@
        + (if with_bytes {
        "let mut buffers_end_index: usize = bytes.len();\n"@
    } else {
        ""@
    }) + "Ok("@ + name + " {\n"@ + members + "})\n}\n}\n"@
}

/// What deriving the encode routine of the host type `input` against the
/// schema `schema` gives: the routine where the type mirrors the schema, an
/// item that stops the build where it does not.
pub open spec fn encode_derives(input: TypeDecl, schema: SchemaModel, text: Seq<char>) -> bool {
    match (input.data, schema) {
        (TypeData::Struct(host), SchemaModel::Record { fields }) => if record_fits(fields, host@) {
            text == encode_struct_text(input.name@, fields)
        } else {
            is_compile_error(text)
        },
        (TypeData::Struct(_), SchemaModel::Enum { .. }) => text == compile_error_text(
            "Encode can only be derived for structs with 'record' schema type"@,
        ),
        (TypeData::Enum(host), SchemaModel::Enum { variants }) => if same_names(
            variants,
            variant_names(host@),
        ) {
            text == encode_enum_text(input.name@, variants)
        } else {
            is_compile_error(text)
        },
        (TypeData::Enum(_), SchemaModel::Record { .. }) => text == compile_error_text(
            "Encode can only be derived for enums with 'enum' schema type"@,
        ),
        (TypeData::Other, _) => text == compile_error_text(
            "Encode can only be derived for structs and enums"@,
        ),
    }
}

/// What deriving the decode routine of the host type `input` against the
/// schema `schema` gives.
pub open spec fn decode_derives(input: TypeDecl, schema: SchemaModel, text: Seq<char>) -> bool {
    match (input.data, schema) {
        (TypeData::Struct(host), SchemaModel::Record { fields }) => match decode_top_members_text(
            fields,
            host@,
        ) {
            Some(members) => text == decode_struct_text(input.name@, holds_bytes(fields), members),
            None => is_compile_error(text),
        },
        (TypeData::Struct(_), SchemaModel::Enum { .. }) => text == compile_error_text(
            "Decode can only be derived for structs with 'record' schema type"@,
        ),
        (TypeData::Enum(host), SchemaModel::Enum { variants }) => if same_names(
            variants,
            variant_names(host@),
        ) {
            text == decode_enum_text(input.name@, variants)
        } else {
            is_compile_error(text)
        },
        (TypeData::Enum(_), SchemaModel::Record { .. }) => text == compile_error_text(
            "Decode can only be derived for enums with 'enum' schema type"@,
        ),
        (TypeData::Other, _) => text == Seq::<char>::empty(),
    }
}


/// The capacity hint of an encode routine.
pub fn emit_capacity(schema: &RecordSchema) -> (text: String)
    requires
        schema.wf(),
    ensures
        schema@ is Record,
        text@ == capacity_text(schema@->fields),
{
    let fields = schema.fields();
    let ghost models = field_models(fields@);
    let mut text = String::from_str("((");
    push_decimal(&mut text, schema.bits() as i64);
    let ghost head = text@;
    let mut i: usize = 0;
    proof {
        lemma_field_models(fields@);
        assert(models.take(0) =~= Seq::<FieldModel>::empty());
        assert(head + Seq::<char>::empty() =~= head);
    }
    while i < fields.len()
        invariant
            i <= fields@.len(),
            models == field_models(fields@),
            models.len() == fields@.len(),
            forall|k: int| 0 <= k < fields@.len() ==> (#[trigger] fields@[k]).wf(),
            forall|k: int| 0 <= k < fields@.len() ==> (#[trigger] models[k]) == fields@[k]@,
            text@ == head + array_terms_text(models.take(i as int)),
        decreases fields@.len() - i,
    {
        proof {
            assert(models.take(i + 1).drop_last() =~= models.take(i as int));
            fields@[i as int].lemma_model();
        }
        let ghost before = text@;
        let ghost front = array_terms_text(models.take(i as int));
        if let Field::Array(array_field) = &fields[i] {
            if !fields[i].nullable() {
                let item_field = array_field.item_field();
                let mut term = String::from_str(" + ");
                push_decimal(&mut term, item_field.bits() as i64);
                term.append(" * self.");
                term.append(camel_to_snake_case(fields[i].name()).as_str());
                term.append(".len()");
                text.append(term.as_str());
                proof {
                    assert(text@ =~= head + (front + term@));
                }
            }
        }
        proof {
            assert(front + Seq::<char>::empty() =~= front);
        }
        i = i + 1;
    }
    proof {
        assert(models.take(i as int) =~= models);
    }
    text.append(" + 7) / 8)");
    let ghost middle = text@;
    let mut i: usize = 0;
    proof {
        assert(middle + Seq::<char>::empty() =~= middle);
    }
    while i < fields.len()
        invariant
            i <= fields@.len(),
            models == field_models(fields@),
            models.len() == fields@.len(),
            forall|k: int| 0 <= k < fields@.len() ==> (#[trigger] models[k]) == fields@[k]@,
            models.take(0) == Seq::<FieldModel>::empty(),
            text@ == middle + bytes_terms_text(models.take(i as int)),
        decreases fields@.len() - i,
    {
        proof {
            assert(models.take(i + 1).drop_last() =~= models.take(i as int));
            fields@[i as int].lemma_model();
        }
        let ghost front = bytes_terms_text(models.take(i as int));
        if let Field::Bytes(_) = &fields[i] {
            if !fields[i].nullable() {
                let mut term = String::from_str(" + self.");
                term.append(camel_to_snake_case(fields[i].name()).as_str());
                term.append(".len()");
                text.append(term.as_str());
                proof {
                    assert(text@ =~= middle + (front + term@));
                }
            }
        }
        proof {
            assert(front + Seq::<char>::empty() =~= front);
        }
        i = i + 1;
    }
    proof {
        assert(models.take(i as int) =~= models);
    }
    text
}

/// The encode routine of the structure `name` whose fields mirror those of
/// `schema`.
pub fn emit_encode_struct(name: &str, schema: &RecordSchema) -> (text: String)
    requires
        schema.wf(),
    ensures
        schema@ is Record,
        text@ == encode_struct_text(name@, schema@->fields),
{
    let fields = schema.fields();
    let with_bytes: bool = has_bytes_field(fields);
    let mut text = String::from_str("impl ::quops::traits::Encode for ");
    text.append(name);
    text.append(
        " {\nfn encode(&self) -> Result<Vec<u8>, ::quops::EncodeError> {\nlet total_bytes: usize = ",
    );
    text.append(emit_capacity(schema).as_str());
    text.append(";\nlet mut writer = ::quops::BitWriter::with_capacity(total_bytes);\n");
    text.append(
        if with_bytes {
            "let mut buffers: Vec<&Vec<u8>> = Vec::new();\n"
        } else {
            ""
        },
    );
    text.append(generate_encode_members(fields, "self").as_str());
    text.append("let mut bin = writer.into_bytes();\n");
    text.append(
        if with_bytes {
            "for buf in buffers.iter().rev() {\nbin.extend_from_slice(buf);\n}\n"
        } else {
            ""
        },
    );
    text.append("Ok(bin)\n}\n}\n");
    text
}

/// The routine that gives the variants `variants` of the enumeration `name`
/// their ordinals.
pub fn emit_encode_enum(name: &str, variants: &Vec<String>) -> (text: String)
    ensures
        text@ == encode_enum_text(name@, variant_names(variants@)),
{
    let ghost names = variant_names(variants@);
    let mut arms = String::new();
    let mut i: usize = 0;
    proof {
        assert(names.take(0) =~= Seq::<Seq<char>>::empty());
    }
    while i < variants.len()
        invariant
            i <= variants@.len(),
            names == variant_names(variants@),
            arms@ == ordinal_arms_text(name@, names.take(i as int)),
        decreases variants@.len() - i,
    {
        proof {
            assert(names.take(i + 1).drop_last() =~= names.take(i as int));
        }
        arms.append(name);
        arms.append("::");
        arms.append(variants[i].as_str());
        arms.append(" => Ok(");
        push_digits(&mut arms, i as u64);
        arms.append("),\n");
        i = i + 1;
    }
    proof {
        assert(names.take(i as int) =~= names);
    }
    let mut text = String::from_str("impl ::quops::traits::AsU64 for ");
    text.append(name);
    text.append(" {\nfn as_u64(&self) -> Result<u64, ::quops::EncodeError> {\nmatch self {\n");
    text.append(arms.as_str());
    text.append("}\n}\n}\n");
    text
}

/// The routine that gives the ordinals their variants of the enumeration
/// `name`.
pub fn emit_decode_enum(name: &str, variants: &Vec<String>) -> (text: String)
    ensures
        text@ == decode_enum_text(name@, variant_names(variants@)),
{
    let ghost names = variant_names(variants@);
    let mut arms = String::new();
    let mut i: usize = 0;
    proof {
        assert(names.take(0) =~= Seq::<Seq<char>>::empty());
    }
    while i < variants.len()
        invariant
            i <= variants@.len(),
            names == variant_names(variants@),
            arms@ == variant_arms_text(name@, names.take(i as int)),
        decreases variants@.len() - i,
    {
        proof {
            assert(names.take(i + 1).drop_last() =~= names.take(i as int));
        }
        push_digits(&mut arms, i as u64);
        arms.append(" => Ok(");
        arms.append(name);
        arms.append("::");
        arms.append(variants[i].as_str());
        arms.append("),\n");
        i = i + 1;
    }
    proof {
        assert(names.take(i as int) =~= names);
    }
    let mut text = String::from_str("impl TryInto<");
    text.append(name);
    text.append("> for u8 {\ntype Error = ::quops::DecodeError;\nfn try_into(self) -> Result<");
    text.append(name);
    text.append(", Self::Error> {\nmatch self {\n");
    text.append(arms.as_str());
    text.append(
        "_ => Err(::quops::DecodeError::OutOfBounds(format!(\"Invalid ordinal: {}\", self))),\n}\n}\n}\n",
    );
    text
}

/// The text of the type that the host structure gives the schema field
/// `name`.
pub fn find_host_type(host: &Vec<StructField>, name: &str) -> (found: Option<String>)
    ensures
        match host_type_of(host@, name@) {
            Some(expected) => found matches Some(text) && text@ == expected,
            None => found is None,
        },
{
    let mut i: usize = 0;
    proof {
        assert(host@.skip(0) =~= host@);
    }
    while i < host.len()
        invariant
            i <= host@.len(),
            host_type_of(host@, name@) == host_type_of(host@.skip(i as int), name@),
        decreases host@.len() - i,
    {
        proof {
            assert(host@.skip(i as int).drop_first() =~= host@.skip(i + 1));
            assert(host@.skip(i as int)[0] == host@[i as int]);
        }
        let camel = snake_to_camel_case(host[i].name.as_str());
        if same_text(camel.as_str(), name) {
            return match host[i].ty.inner_type() {
                Some(inner) => Some(inner.full_type()),
                None => Some(host[i].ty.full_type()),
            };
        }
        i = i + 1;
    }
    None
}

/// A field among the first fields that the host structure lacks leaves the
/// structure expression without members.
pub proof fn lemma_decode_top_members_fails(
    fields: Seq<FieldModel>,
    host: Seq<StructField>,
    n: int,
)
    requires
        0 <= n <= fields.len(),
        decode_top_members_text(fields.take(n), host) is None,
    ensures
        decode_top_members_text(fields, host) is None,
    decreases fields.len() - n,
{
    if n == fields.len() {
        assert(fields.take(n) =~= fields);
    } else {
        assert(fields.drop_last().take(n) =~= fields.take(n));
        lemma_decode_top_members_fails(fields.drop_last(), host, n);
    }
}

/// The members of the structure expression of a decode routine.
pub fn emit_decode_top_members(fields: &Vec<Field>, host: &Vec<StructField>) -> (members: Option<
    String,
>)
    requires
        forall|i: int| 0 <= i < fields@.len() ==> (#[trigger] fields@[i]).wf(),
    ensures
        match decode_top_members_text(field_models(fields@), host@) {
            Some(expected) => members matches Some(text) && text@ == expected,
            None => members is None,
        },
{
    let ghost models = field_models(fields@);
    let mut text = String::new();
    let mut i: usize = 0;
    proof {
        lemma_field_models(fields@);
        assert(models.take(0) =~= Seq::<FieldModel>::empty());
    }
    while i < fields.len()
        invariant
            i <= fields@.len(),
            models == field_models(fields@),
            models.len() == fields@.len(),
            forall|k: int| 0 <= k < fields@.len() ==> (#[trigger] fields@[k]).wf(),
            forall|k: int| 0 <= k < fields@.len() ==> (#[trigger] models[k]) == fields@[k]@,
            decode_top_members_text(models.take(i as int), host@) == Some(text@),
        decreases fields@.len() - i,
    {
        proof {
            assert(models.take(i + 1).drop_last() =~= models.take(i as int));
        }
        let host_type: String = match find_host_type(host, fields[i].name()) {
            Some(host_type) => host_type,
            None => {
                proof {
                    lemma_decode_top_members_fails(models, host@, i + 1);
                }
                return None;
            },
        };
        push_decode_member(&mut text, &fields[i], host_type.as_str());
        i = i + 1;
    }
    proof {
        assert(models.take(i as int) =~= models);
    }
    Some(text)
}

/// The decode routine of the structure `name` with the members `members`.
pub fn emit_decode_struct(name: &str, with_bytes: bool, members: &str) -> (text: String)
    ensures
        text@ == decode_struct_text(name@, with_bytes, members@),
{
    let mut text = String::from_str("impl ::quops::traits::Decode for ");
    text.append(name);
    text.append(
        " {\nfn decode(bytes: &[u8]) -> Result<Self, ::quops::DecodeError> {\nlet mut reader = ::quops::BitReader::new(bytes);\n",
    );
    text.append(
        if with_bytes {
            "let mut buffers_end_index: usize = bytes.len();\n"
        } else {
            ""
        },
    );
    text.append("Ok(");
    text.append(name);
    text.append(" {\n");
    text.append(members);
    text.append("})\n}\n}\n");
    text
}

/// Derives the encode routine of the host type `input` against the schema
/// `schema`: the routine as source text where the type mirrors the schema,
/// and an item that stops the build where it does not. The variants of an
/// enumeration get their ordinals in the order of the schema, whatever the
/// order in which the host type declares them.
pub fn encode(input: &TypeDecl, schema: &Schema) -> (text: String)
    requires
        schema.wf(),
    ensures
        encode_derives(*input, schema@, text@),
{
    proof {
        schema.lemma_model();
    }
    match &input.data {
        TypeData::Struct(host) => match schema {
            Schema::Record(record) => match validate_record_schema(record, host) {
                Ok(()) => emit_encode_struct(input.name.as_str(), record),
                Err(message) => stop_build_with("Schema validation error: ", message.as_str()),
            },
            Schema::Enum(_) => stop_build(
                "Encode can only be derived for structs with 'record' schema type",
            ),
        },
        TypeData::Enum(host) => match schema {
            Schema::Enum(enumeration) => match validate_enum_schema(enumeration, host) {
                Ok(()) => emit_encode_enum(input.name.as_str(), &enumeration.variants),
                Err(message) => stop_build_with("Schema validation error: ", message.as_str()),
            },
            Schema::Record(_) => stop_build(
                "Encode can only be derived for enums with 'enum' schema type",
            ),
        },
        TypeData::Other => stop_build("Encode can only be derived for structs and enums"),
    }
}

/// Derives the decode routine of the host type `input` against the schema
/// `schema`: the routine as source text where the type has every field of
/// the schema, or the same variants, and an item that stops the build where
/// it has not. The ordinals name the variants of an enumeration in the order
/// of the schema. For a type that is neither a structure nor an enumeration
/// nothing is derived.
pub fn decode(input: &TypeDecl, schema: &Schema) -> (text: String)
    requires
        schema.wf(),
    ensures
        decode_derives(*input, schema@, text@),
{
    proof {
        schema.lemma_model();
    }
    match &input.data {
        TypeData::Struct(host) => match schema {
            Schema::Record(record) => {
                let fields = record.fields();
                match emit_decode_top_members(fields, host) {
                    Some(members) => emit_decode_struct(
                        input.name.as_str(),
                        has_bytes_field(fields),
                        members.as_str(),
                    ),
                    None => stop_build("A field of the schema is not present in the struct"),
                }
            },
            Schema::Enum(_) => stop_build(
                "Decode can only be derived for structs with 'record' schema type",
            ),
        },
        TypeData::Enum(host) => match schema {
            Schema::Enum(enumeration) => match validate_enum_schema(enumeration, host) {
                Ok(()) => emit_decode_enum(input.name.as_str(), &enumeration.variants),
                Err(message) => stop_build_with("Schema validation error: ", message.as_str()),
            },
            Schema::Record(_) => stop_build(
                "Decode can only be derived for enums with 'enum' schema type",
            ),
        },
        TypeData::Other => String::new(),
    }
}

} // verus!
