//! What the code generator needs beside the schema: the mapping between the
//! field names of a schema and those of a host type, the integer types that
//! can hold a range, and the validation of a host type against its schema.

use vstd::prelude::*;
use vstd::string::{StrSliceExecFns, StringExecFns};
use crate::field::FieldTrait;
use crate::json::same_text;
use crate::text::about;
use crate::schema::{variant_names, EnumSchema, RecordSchema};
use std::ops::RangeInclusive;
use crate::field::{field_models, lemma_field_models, Field, FieldModel, KindModel};

verus! {

/// The upper-case form of an ASCII letter; any other character is unchanged.
pub open spec fn ascii_upper(c: char) -> char {
    if 'a' <= c <= 'z' {
        ((c as u8) - 32) as char
    } else {
        c
    }
}

/// The lower-case form of an ASCII letter; any other character is unchanged.
pub open spec fn ascii_lower(c: char) -> char {
    if 'A' <= c <= 'Z' {
        ((c as u8) + 32) as char
    } else {
        c
    }
}

/// Whether `char::is_uppercase` holds of a character: whether it has the
/// Unicode property `Uppercase`.
pub uninterp spec fn char_is_uppercase(c: char) -> bool;

/// `char::to_ascii_uppercase` maps the letters `a` to `z` to `A` to `Z` and
/// leaves every other character as it is.
pub assume_specification[ char::to_ascii_uppercase ](c: &char) -> (upper: char)
    ensures
        upper == ascii_upper(*c),
;

/// `char::to_ascii_lowercase` maps the letters `A` to `Z` to `a` to `z` and
/// leaves every other character as it is.
pub assume_specification[ char::to_ascii_lowercase ](c: &char) -> (lower: char)
    ensures
        lower == ascii_lower(*c),
;

/// `char::is_uppercase` tells whether a character has the Unicode property
/// `Uppercase`. Among the ASCII characters the letters `A` to `Z` have it and
/// no other.
pub assume_specification[ char::is_uppercase ](c: char) -> (uppercase: bool)
    ensures
        uppercase == char_is_uppercase(c),
        is_ascii_char(c) ==> uppercase == ('A' <= c <= 'Z'),
;

/// `String::push` appends a character to the end of a string.
pub assume_specification[ std::string::String::push ](text: &mut std::string::String, c: char)
    ensures
        final(text)@ == old(text)@.push(c),
;

/// The camel-case form of the rest of a snake-case name: every underscore is
/// left out, and the character behind one is put in upper case.
pub open spec fn camel_of(name: Seq<char>, upper_next: bool) -> Seq<char>
    decreases name.len(),
{
    if name.len() == 0 {
        Seq::empty()
    } else if name[0] == '_' {
        camel_of(name.drop_first(), true)
    } else if upper_next {
        seq![ascii_upper(name[0])] + camel_of(name.drop_first(), false)
    } else {
        seq![name[0]] + camel_of(name.drop_first(), false)
    }
}

/// What a character of a camel-case name becomes in snake case: an
/// upper-case character is put in lower case behind an underscore, which is
/// left out at the start of the name; any other character stays.
pub open spec fn snake_piece(c: char, uppercase: bool, first: bool) -> Seq<char> {
    if uppercase {
        if first {
            seq![ascii_lower(c)]
        } else {
            seq!['_', ascii_lower(c)]
        }
    } else {
        seq![c]
    }
}

/// The snake-case form of the rest of a camel-case name.
pub open spec fn snake_of(name: Seq<char>, first: bool) -> Seq<char>
    decreases name.len(),
{
    if name.len() == 0 {
        Seq::empty()
    } else {
        snake_piece(name[0], char_is_uppercase(name[0]), first) + snake_of(
            name.drop_first(),
            false,
        )
    }
}

/// Whether a character is an ASCII character.
pub open spec fn is_ascii_char(c: char) -> bool {
    (c as u32) <= 127
}

/// Whether every character of a name is an ASCII character.
pub open spec fn is_ascii_name(name: Seq<char>) -> bool {
    forall|i: int| 0 <= i < name.len() ==> is_ascii_char(#[trigger] name[i])
}

/// The snake-case form of the rest of a camel-case name of ASCII characters:
/// every letter from `A` to `Z` is put in lower case behind an underscore,
/// which is left out at the start of the name.
pub open spec fn ascii_snake_of(name: Seq<char>, first: bool) -> Seq<char>
    decreases name.len(),
{
    if name.len() == 0 {
        Seq::empty()
    } else {
        snake_piece(name[0], 'A' <= name[0] <= 'Z', first) + ascii_snake_of(
            name.drop_first(),
            false,
        )
    }
}

/// The camel-case form of a snake-case name.
pub fn snake_to_camel_case(s: &str) -> (camel: String)
    ensures
        camel@ == camel_of(s@, false),
{
    let mut result = String::new();
    let mut next_char_uppercase: bool = false;
    let length: usize = s.unicode_len();
    let mut i: usize = 0;
    proof {
        assert(s@.skip(0) =~= s@);
    }
    while i < length
        invariant
            i <= length,
            length == s@.len(),
            camel_of(s@, false) == result@ + camel_of(s@.skip(i as int), next_char_uppercase),
        decreases length - i,
    {
        let c: char = s.get_char(i);
        proof {
            assert(s@.skip(i as int).drop_first() =~= s@.skip(i + 1));
            assert(s@.skip(i as int)[0] == c);
        }
        let ghost before = result@;
        if c == '_' {
            next_char_uppercase = true;
        } else if next_char_uppercase {
            result.push(c.to_ascii_uppercase());
            next_char_uppercase = false;
            proof {
                assert(result@ + camel_of(s@.skip(i + 1), false) =~= before + (seq![
                    ascii_upper(c),
                ] + camel_of(s@.skip(i + 1), false)));
            }
        } else {
            result.push(c);
            proof {
                assert(result@ + camel_of(s@.skip(i + 1), false) =~= before + (seq![c] + camel_of(
                    s@.skip(i + 1),
                    false,
                )));
            }
        }
        i = i + 1;
    }
    proof {
        assert(result@ + Seq::<char>::empty() =~= result@);
    }
    result
}

/// Appends to `text` what the character `c` of a camel-case name becomes in
/// snake case, `uppercase` telling whether the character is an upper-case one
/// and `first` whether it is the first of the name.
pub fn push_snake_piece(text: &mut String, c: char, uppercase: bool, first: bool)
    ensures
        final(text)@ == old(text)@ + snake_piece(c, uppercase, first),
{
    if uppercase {
        if !first {
            text.push('_');
        }
        text.push(c.to_ascii_lowercase());
    } else {
        text.push(c);
    }
    proof {
        assert(text@ =~= old(text)@ + snake_piece(c, uppercase, first));
    }
}

/// The snake-case form of a camel-case name. Of a name of ASCII characters
/// it is the name with every letter from `A` to `Z` in lower case behind an
/// underscore.
pub fn camel_to_snake_case(s: &str) -> (snake: String)
    ensures
        snake@ == snake_of(s@, true),
        is_ascii_name(s@) ==> snake@ == ascii_snake_of(s@, true),
{
    let mut result = String::new();
    let length: usize = s.unicode_len();
    let mut i: usize = 0;
    proof {
        assert(s@.skip(0) =~= s@);
    }
    while i < length
        invariant
            i <= length,
            length == s@.len(),
            snake_of(s@, true) == result@ + snake_of(s@.skip(i as int), i == 0),
            is_ascii_name(s@) ==> ascii_snake_of(s@, true) == result@ + ascii_snake_of(
                s@.skip(i as int),
                i == 0,
            ),
        decreases length - i,
    {
        let c: char = s.get_char(i);
        proof {
            assert(s@.skip(i as int).drop_first() =~= s@.skip(i + 1));
            assert(s@.skip(i as int)[0] == c);
        }
        let ghost before = result@;
        let uppercase: bool = c.is_uppercase();
        push_snake_piece(&mut result, c, uppercase, i == 0);
        proof {
            assert(result@ + snake_of(s@.skip(i + 1), false) =~= before + (snake_piece(
                c,
                char_is_uppercase(c),
                i == 0,
            ) + snake_of(s@.skip(i + 1), false)));
            if is_ascii_name(s@) {
                assert(is_ascii_char(s@[i as int]));
                assert(result@ + ascii_snake_of(s@.skip(i + 1), false) =~= before + (snake_piece(
                    c,
                    'A' <= c <= 'Z',
                    i == 0,
                ) + ascii_snake_of(s@.skip(i + 1), false)));
            }
        }
        i = i + 1;
    }
    proof {
        assert(result@ + Seq::<char>::empty() =~= result@);
    }
    result
}

/// `RangeInclusive::start` returns the lower bound of the range.
pub assume_specification<Idx>[ RangeInclusive::<Idx>::start ](range: &RangeInclusive<Idx>) -> (start:
    &Idx)
    ensures
        *start == range@.start,
;

/// `RangeInclusive::end` returns the upper bound of the range.
pub assume_specification<Idx>[ RangeInclusive::<Idx>::end ](range: &RangeInclusive<Idx>) -> (end:
    &Idx)
    ensures
        *end == range@.end,
;

/// The texts of a list of names.
pub open spec fn texts_of(names: Seq<&'static str>) -> Seq<Seq<char>> {
    Seq::new(names.len(), |i: int| names[i]@)
}

/// The names of the integer types that can hold every number from `min` to
/// `max`: the narrowest that can, and the wider ones. There are none where
/// no type of at most 64 bits can.
pub open spec fn valid_types(min: int, max: int) -> Option<Seq<Seq<char>>> {
    if min >= 0 && max <= u8::MAX {
        Some(
            seq![
                "u8"@,
                "u16"@,
                "u32"@,
                "u64"@,
                "u128"@,
                "i16"@,
                "i32"@,
                "i64"@,
                "i128"@,
            ],
        )
    } else if min >= i8::MIN && max <= i8::MAX {
        Some(seq!["i8"@, "i16"@, "i32"@, "i64"@, "i128"@])
    } else if min >= 0 && max <= u16::MAX {
        Some(seq!["u16"@, "u32"@, "u64"@, "u128"@, "i32"@, "i64"@, "i128"@])
    } else if min >= i16::MIN && max <= i16::MAX {
        Some(seq!["i16"@, "i32"@, "i64"@, "i128"@])
    } else if min >= 0 && max <= u32::MAX {
        Some(seq!["u32"@, "u64"@, "u128"@, "i64"@, "i128"@])
    } else if min >= i32::MIN && max <= i32::MAX {
        Some(seq!["i32"@, "i64"@, "i128"@])
    } else if min >= 0 && max <= u64::MAX {
        Some(seq!["u64"@, "u128"@, "i128"@])
    } else if min >= i64::MIN && max <= i64::MAX {
        Some(seq!["i64"@, "i128"@])
    } else {
        None
    }
}

/// The integer types that can hold every number of `range`. A range that no
/// type of at most 64 bits can hold is refused.
pub fn valid_types_for_range(range: &RangeInclusive<i128>, field_name: &str) -> (r: Result<
    Vec<&'static str>,
    String,
>)
    ensures
        match valid_types(range@.start as int, range@.end as int) {
            Some(names) => r matches Ok(types) && texts_of(types@) == names,
            None => r is Err,
        },
{
    let min: i128 = *range.start();
    let max: i128 = *range.end();
    if min >= 0 && max <= u8::MAX as i128 {
        let types = vec!["u8", "u16", "u32", "u64", "u128", "i16", "i32", "i64", "i128"];
        proof {
            assert(texts_of(types@) =~= valid_types(min as int, max as int)->Some_0);
        }
        Ok(types)
    } else if min >= i8::MIN as i128 && max <= i8::MAX as i128 {
        let types = vec!["i8", "i16", "i32", "i64", "i128"];
        proof {
            assert(texts_of(types@) =~= valid_types(min as int, max as int)->Some_0);
        }
        Ok(types)
    } else if min >= 0 && max <= u16::MAX as i128 {
        let types = vec!["u16", "u32", "u64", "u128", "i32", "i64", "i128"];
        proof {
            assert(texts_of(types@) =~= valid_types(min as int, max as int)->Some_0);
        }
        Ok(types)
    } else if min >= i16::MIN as i128 && max <= i16::MAX as i128 {
        let types = vec!["i16", "i32", "i64", "i128"];
        proof {
            assert(texts_of(types@) =~= valid_types(min as int, max as int)->Some_0);
        }
        Ok(types)
    } else if min >= 0 && max <= u32::MAX as i128 {
        let types = vec!["u32", "u64", "u128", "i64", "i128"];
        proof {
            assert(texts_of(types@) =~= valid_types(min as int, max as int)->Some_0);
        }
        Ok(types)
    } else if min >= i32::MIN as i128 && max <= i32::MAX as i128 {
        let types = vec!["i32", "i64", "i128"];
        proof {
            assert(texts_of(types@) =~= valid_types(min as int, max as int)->Some_0);
        }
        Ok(types)
    } else if min >= 0 && max <= u64::MAX as i128 {
        let types = vec!["u64", "u128", "i128"];
        proof {
            assert(texts_of(types@) =~= valid_types(min as int, max as int)->Some_0);
        }
        Ok(types)
    } else if min >= i64::MIN as i128 && max <= i64::MAX as i128 {
        let types = vec!["i64", "i128"];
        proof {
            assert(texts_of(types@) =~= valid_types(min as int, max as int)->Some_0);
        }
        Ok(types)
    } else {
        Err(about("Unsupported range of field", field_name))
    }
}

/// Whether the field is a byte sequence or holds one below it.
pub open spec fn field_holds_bytes(field: FieldModel) -> bool
    decreases field, 1nat,
{
    match field.kind {
        KindModel::Bytes { .. } => true,
        KindModel::Array { items, .. } => field_holds_bytes(*items),
        KindModel::Record { fields } => holds_bytes(fields),
        _ => false,
    }
}

/// Whether one of the fields is a byte sequence or holds one below it.
pub open spec fn holds_bytes(fields: Seq<FieldModel>) -> bool
    decreases fields, 0nat,
{
    exists|i: int| 0 <= i < fields.len() && field_holds_bytes(#[trigger] fields[i])
}

/// Whether the field is a byte sequence or holds one below it.
pub fn field_has_bytes(field: &Field) -> (found: bool)
    ensures
        found == field_holds_bytes(field@),
    decreases field@, 1nat,
{
    match field {
        Field::Bytes(_) => {
            proof {
                field.lemma_model();
            }
            true
        },
        Field::Array(array_field) => {
            let item = array_field.item_field();
            proof {
                assert(field@.kind->items == Box::new(item@));
                assert(decreases_to!(field@ => field@.kind->items));
            }
            field_has_bytes(item)
        },
        Field::Record(record_field) => {
            let fields = record_field.sub_fields();
            proof {
                assert(field@.kind->fields == field_models(fields@));
                assert(decreases_to!(field@ => field@.kind->fields));
            }
            has_bytes_field(fields)
        },
        _ => {
            proof {
                field.lemma_model();
            }
            false
        },
    }
}

/// Whether one of the fields is a byte sequence or holds one below it.
pub fn has_bytes_field(fields: &Vec<Field>) -> (found: bool)
    ensures
        found == holds_bytes(field_models(fields@)),
    decreases field_models(fields@), 0nat,
{
    let ghost models = field_models(fields@);
    let mut i: usize = 0;
    proof {
        lemma_field_models(fields@);
    }
    while i < fields.len()
        invariant
            i <= fields@.len(),
            models == field_models(fields@),
            models.len() == fields@.len(),
            forall|k: int| 0 <= k < fields@.len() ==> (#[trigger] models[k]) == fields@[k]@,
            forall|k: int| 0 <= k < i ==> !field_holds_bytes(#[trigger] models[k]),
        decreases fields@.len() - i,
    {
        proof {
            assert(models[i as int] == fields@[i as int]@);
            vstd::seq::axiom_seq_index_decreases(models, i as int);
        }
        if field_has_bytes(&fields[i]) {
            assert(field_holds_bytes(models[i as int]));
            return true;
        }
        i = i + 1;
    }
    false
}


/// A type of the host language, as far as the validation reads it.
#[derive(Debug)]
pub enum TypeHelper {
    /// A path: the count of its segments, the identifier of the first
    /// segment, and the first generic argument of that segment where it is a
    /// type.
    Path { segments: usize, ident: String, argument: Option<Box<TypeHelper>> },
    /// Any other type, as the text of its tokens.
    Other { text: String },
}

/// A field of a host structure: its name and its type.
#[derive(Debug)]
pub struct StructField {
    pub name: String,
    pub ty: TypeHelper,
}

/// The attribute that ties a host type to its schema.
#[derive(Debug)]
pub struct SchemaAttr {
    /// The path of the schema file.
    pub path: String,
}

/// Why no schema could be had for a host type.
#[derive(Debug)]
pub enum SchemaParseError {
    /// The type carries no usable schema attribute.
    NoAttribute(String),
    /// There is no file at the path the attribute gives.
    FileNotFound(String),
    /// The file holds no schema.
    ParseError(String),
}

impl SchemaParseError {
    /// The error as a sentence.
    pub fn describe(&self) -> (text: String)
        ensures
            text@ == match self {
                SchemaParseError::NoAttribute(message) => "Failed to parse #[schema(...)] attribute: "@
                    + message@,
                SchemaParseError::FileNotFound(path) => "Schema file not found: "@ + path@,
                SchemaParseError::ParseError(message) => "Failed to parse schema: "@ + message@,
            },
    {
        match self {
            SchemaParseError::NoAttribute(message) => String::from_str(
                "Failed to parse #[schema(...)] attribute: ",
            ).concat(message.as_str()),
            SchemaParseError::FileNotFound(path) => String::from_str(
                "Schema file not found: ",
            ).concat(path.as_str()),
            SchemaParseError::ParseError(message) => String::from_str(
                "Failed to parse schema: ",
            ).concat(message.as_str()),
        }
    }
}

impl TypeHelper {
    /// The type as text: the identifier, and the argument between angle
    /// brackets where there is one.
    pub open spec fn rendered(&self) -> Seq<char>
        decreases self,
    {
        match self {
            TypeHelper::Path { ident, argument: Some(inner), .. } => ident@ + "<"@
                + inner.rendered() + ">"@,
            TypeHelper::Path { ident, argument: None, .. } => ident@,
            TypeHelper::Other { text } => text@,
        }
    }

    /// The first generic argument, where the type is a path that has one.
    pub open spec fn spec_inner(&self) -> Option<TypeHelper> {
        match self {
            TypeHelper::Path { argument: Some(inner), .. } => Some(**inner),
            _ => None,
        }
    }

    /// The path type of one segment named `ident`, without arguments.
    pub fn new(ident: &str) -> (ty: Self)
        ensures
            ty matches TypeHelper::Path { segments, ident: name, argument } && segments == 1
                && name@ == ident@ && argument is None,
    {
        TypeHelper::Path { segments: 1, ident: ident.to_owned(), argument: None }
    }

    /// The path type of one segment named `ident` with the argument
    /// `argument`.
    pub fn generic(ident: &str, argument: TypeHelper) -> (ty: Self)
        ensures
            ty matches TypeHelper::Path { segments, ident: name, argument: Some(inner) }
                && segments == 1 && name@ == ident@ && *inner == argument,
    {
        TypeHelper::Path { segments: 1, ident: ident.to_owned(), argument: Some(Box::new(argument)) }
    }

    /// The identifier, where the type is a path of one segment.
    pub fn get_type(&self) -> (name: Option<String>)
        ensures
            match self {
                TypeHelper::Path { segments, ident, .. } if *segments == 1 => name matches Some(
                    text,
                ) && text@ == ident@,
                _ => name is None,
            },
    {
        match self {
            TypeHelper::Path { segments, ident, .. } => {
                if *segments == 1 {
                    Some(ident.clone())
                } else {
                    None
                }
            },
            TypeHelper::Other { .. } => None,
        }
    }

    /// The first generic argument, where the type is a path that has one.
    pub fn inner_type(&self) -> (inner: Option<&TypeHelper>)
        ensures
            match self.spec_inner() {
                Some(expected) => inner matches Some(found) && *found == expected,
                None => inner is None,
            },
    {
        match self {
            TypeHelper::Path { argument: Some(inner), .. } => Some(&**inner),
            _ => None,
        }
    }

    /// The type as text.
    pub fn full_type(&self) -> (text: String)
        ensures
            text@ == self.rendered(),
        decreases self,
    {
        match self {
            TypeHelper::Path { ident, argument: Some(inner), .. } => {
                let mut text: String = ident.clone();
                text.append("<");
                let inner_text = inner.full_type();
                text.append(inner_text.as_str());
                text.append(">");
                text
            },
            TypeHelper::Path { ident, argument: None, .. } => ident.clone(),
            TypeHelper::Other { text } => text.clone(),
        }
    }
}

/// The name of a type, inside `Option<..>` where the field may be absent.
pub open spec fn wrapped(name: Seq<char>, nullable: bool) -> Seq<char> {
    if nullable {
        "Option<"@ + name + ">"@
    } else {
        name
    }
}

/// The name of a type, inside `Option<..>` where the field may be absent.
pub fn wrap_type(name: &str, nullable: bool) -> (text: String)
    ensures
        text@ == wrapped(name@, nullable),
{
    if nullable {
        let mut text = String::from_str("Option<");
        text.append(name);
        text.append(">");
        text
    } else {
        String::from_str(name)
    }
}

/// The least bound of a field, or of 32-bit numbers where it declares none.
pub open spec fn lower_bound(min: Option<int>) -> int {
    match min {
        Some(bound) => bound,
        None => i32::MIN as int,
    }
}

/// The greatest bound of a field, or of 32-bit numbers where it declares
/// none.
pub open spec fn upper_bound(max: Option<int>) -> int {
    match max {
        Some(bound) => bound,
        None => i32::MAX as int,
    }
}

/// The type of the items of an array field: the first argument of the host
/// type, or of its first argument where the field may be absent.
pub open spec fn item_type(host: TypeHelper, nullable: bool) -> Option<TypeHelper> {
    if nullable {
        match host.spec_inner() {
            Some(list) => list.spec_inner(),
            None => None,
        }
    } else {
        host.spec_inner()
    }
}

/// Whether the host type `host` can hold the values of the field `field`: an
/// integer type that holds the range of an integer field, `bool` for a truth
/// value, `Vec<u8>` for a byte sequence, each inside `Option<..>` where the
/// field may be absent; for an array, an item type that can hold the items.
/// Records and enumerations are not held to a type.
pub open spec fn type_fits(field: FieldModel, host: TypeHelper) -> bool
    decreases field,
{
    match field.kind {
        KindModel::Int { min, max } => match valid_types(lower_bound(min), upper_bound(max)) {
            Some(names) => exists|i: int|
                0 <= i < names.len() && host.rendered() == wrapped(
                    #[trigger] names[i],
                    field.nullable,
                ),
            None => false,
        },
        KindModel::Boolean => host.rendered() == wrapped("bool"@, field.nullable),
        KindModel::Bytes { .. } => host.rendered() == wrapped("Vec<u8>"@, field.nullable),
        KindModel::Array { items, .. } => match item_type(host, field.nullable) {
            Some(inner) => type_fits(*items, inner),
            None => false,
        },
        _ => true,
    }
}

/// A host type that renders as one of the valid types of an integer field fits
/// the field.
proof fn lemma_int_type_fits(field: FieldModel, host: TypeHelper, names: Seq<Seq<char>>, i: int)
    requires
        field.kind is Int,
        valid_types(lower_bound(field.kind->min), upper_bound(field.kind->max)) == Some(names),
        0 <= i < names.len(),
        host.rendered() == wrapped(names[i], field.nullable),
    ensures
        type_fits(field, host),
{
    match field.kind {
        KindModel::Int { min, max } => {
            assert(valid_types(lower_bound(min), upper_bound(max)) == Some(names));
            assert(exists|k: int|
                0 <= k < names.len() && host.rendered() == wrapped(
                    #[trigger] names[k],
                    field.nullable,
                ));
            assert(type_fits(field, host) == (match valid_types(lower_bound(min), upper_bound(max)) {
                Some(list) => exists|k: int|
                    0 <= k < list.len() && host.rendered() == wrapped(
                        #[trigger] list[k],
                        field.nullable,
                    ),
                None => false,
            }));
        },
        _ => {},
    }
}

/// Checks that the host type `type_helper` can hold the values of the field
/// `field`.
pub fn validate_field_type(field: &Field, type_helper: &TypeHelper) -> (r: Result<(), String>)
    requires
        field.wf(),
    ensures
        r is Ok <==> type_fits(field@, *type_helper),
    decreases field@,
{
    proof {
        field.lemma_model();
    }
    let nullable: bool = field.nullable();
    match field {
        Field::Int(int_field) => {
            let min: i128 = match int_field.min_bound() {
                Some(bound) => bound as i128,
                None => i32::MIN as i128,
            };
            let max: i128 = match int_field.max_bound() {
                Some(bound) => bound as i128,
                None => i32::MAX as i128,
            };
            let range = RangeInclusive::new(min, max);
            let types = match valid_types_for_range(&range, field.name()) {
                Ok(types) => types,
                Err(message) => {
                    return Err(message);
                },
            };
            let full_type = type_helper.full_type();
            let ghost names = texts_of(types@);
            let mut i: usize = 0;
            while i < types.len()
                invariant
                    i <= types@.len(),
                    names == texts_of(types@),
                    field@.kind is Int,
                    nullable == field@.nullable,
                    valid_types(
                        lower_bound(field@.kind->min),
                        upper_bound(field@.kind->max),
                    ) == Some(names),
                    full_type@ == type_helper.rendered(),
                    forall|k: int|
                        0 <= k < i ==> type_helper.rendered() != wrapped(
                            #[trigger] names[k],
                            nullable,
                        ),
                decreases types@.len() - i,
            {
                let expected = wrap_type(types[i], nullable);
                if same_text(expected.as_str(), full_type.as_str()) {
                    proof {
                        lemma_int_type_fits(field@, *type_helper, names, i as int);
                    }
                    return Ok(());
                }
                i = i + 1;
            }
            Err(about("The type cannot hold the range of field", field.name()))
        },
        Field::Boolean(_) => {
            let expected = wrap_type("bool", nullable);
            if same_text(expected.as_str(), type_helper.full_type().as_str()) {
                Ok(())
            } else {
                Err(about("Another type than a boolean for field", field.name()))
            }
        },
        Field::Bytes(_) => {
            let expected = wrap_type("Vec<u8>", nullable);
            if same_text(expected.as_str(), type_helper.full_type().as_str()) {
                Ok(())
            } else {
                Err(about("Another type than a byte sequence for field", field.name()))
            }
        },
        Field::Array(array_field) => {
            let item_field = array_field.item_field();
            let list: Option<&TypeHelper> = if nullable {
                match type_helper.inner_type() {
                    Some(list) => list.inner_type(),
                    None => None,
                }
            } else {
                type_helper.inner_type()
            };
            match list {
                Some(inner) => {
                    proof {
                        assert(field@.kind->items == Box::new(item_field@));
                        assert(decreases_to!(field@ => field@.kind->items));
                    }
                    validate_field_type(item_field, inner)
                },
                None => Err(about("No item type for array field", field.name())),
            }
        },
        _ => Ok(()),
    }
}


/// Whether `text` is among `list`.
pub fn contains_text(list: &Vec<String>, text: &str) -> (found: bool)
    ensures
        found == variant_names(list@).contains(text@),
{
    let mut i: usize = 0;
    while i < list.len()
        invariant
            i <= list@.len(),
            forall|k: int| 0 <= k < i ==> (#[trigger] variant_names(list@)[k]) != text@,
        decreases list@.len() - i,
    {
        if same_text(list[i].as_str(), text) {
            assert(variant_names(list@)[i as int] == text@);
            return true;
        }
        i = i + 1;
    }
    false
}

/// The first of `fields` that is named `name`.
pub open spec fn field_named(fields: Seq<FieldModel>, name: Seq<char>) -> Option<FieldModel>
    decreases fields.len(),
{
    if fields.len() == 0 {
        None
    } else if fields[0].name == name {
        Some(fields[0])
    } else {
        field_named(fields.drop_first(), name)
    }
}

/// The place of the first of `fields` that is named `name`.
pub fn find_field(fields: &Vec<Field>, name: &str) -> (found: Option<usize>)
    ensures
        match field_named(field_models(fields@), name@) {
            Some(model) => found matches Some(index) && index < fields@.len()
                && fields@[index as int]@ == model,
            None => found is None,
        },
{
    let ghost models = field_models(fields@);
    let mut i: usize = 0;
    proof {
        lemma_field_models(fields@);
        assert(models.skip(0) =~= models);
    }
    while i < fields.len()
        invariant
            i <= fields@.len(),
            models == field_models(fields@),
            models.len() == fields@.len(),
            forall|k: int| 0 <= k < fields@.len() ==> (#[trigger] models[k]) == fields@[k]@,
            field_named(models, name@) == field_named(models.skip(i as int), name@),
        decreases fields@.len() - i,
    {
        proof {
            assert(models.skip(i as int).drop_first() =~= models.skip(i + 1));
            assert(models.skip(i as int)[0] == models[i as int]);
        }
        if same_text(fields[i].name(), name) {
            return Some(i);
        }
        i = i + 1;
    }
    None
}

/// The names that the fields of a host structure have in a schema: their
/// camel-case forms.
pub open spec fn schema_names(host: Seq<StructField>) -> Seq<Seq<char>> {
    Seq::new(host.len(), |j: int| camel_of(host[j].name@, false))
}

/// Whether a host structure with the fields `host` mirrors a record with the
/// fields `fields`: every field of the record is a field of the structure,
/// and every field of the structure is a field of the record whose values
/// its type can hold.
pub open spec fn record_fits(fields: Seq<FieldModel>, host: Seq<StructField>) -> bool {
    &&& forall|i: int|
        0 <= i < fields.len() ==> schema_names(host).contains((#[trigger] fields[i]).name)
    &&& forall|j: int|
        0 <= j < host.len() ==> (field_named(fields, #[trigger] schema_names(host)[j])
            matches Some(field) && type_fits(field, host[j].ty))
}

/// Checks that a host structure with the fields `struct_fields` mirrors the
/// record schema `schema`.
pub fn validate_record_schema(schema: &RecordSchema, struct_fields: &Vec<StructField>) -> (r:
    Result<(), String>)
    requires
        schema.wf(),
    ensures
        schema@ is Record,
        r is Ok <==> record_fits(schema@->fields, struct_fields@),
{
    let fields = schema.fields();
    let ghost models = field_models(fields@);
    let ghost host_names = schema_names(struct_fields@);
    proof {
        lemma_field_models(fields@);
    }
    let mut names: Vec<String> = Vec::new();
    let mut j: usize = 0;
    while j < struct_fields.len()
        invariant
            j <= struct_fields@.len(),
            names@.len() == j,
            forall|k: int|
                0 <= k < j ==> (#[trigger] names@[k])@ == camel_of(struct_fields@[k].name@, false),
        decreases struct_fields@.len() - j,
    {
        names.push(snake_to_camel_case(struct_fields[j].name.as_str()));
        j = j + 1;
    }
    proof {
        assert(variant_names(names@) =~= host_names);
    }
    let mut i: usize = 0;
    while i < fields.len()
        invariant
            i <= fields@.len(),
            models == field_models(fields@),
            models.len() == fields@.len(),
            forall|k: int| 0 <= k < fields@.len() ==> (#[trigger] models[k]) == fields@[k]@,
            variant_names(names@) == host_names,
            host_names == schema_names(struct_fields@),
            schema@ == (crate::schema::SchemaModel::Record { fields: models }),
            forall|k: int| 0 <= k < i ==> host_names.contains((#[trigger] models[k]).name),
        decreases fields@.len() - i,
    {
        if !contains_text(&names, fields[i].name()) {
            assert(!host_names.contains(models[i as int].name));
            return Err(about("Missing in the struct: field", fields[i].name()));
        }
        i = i + 1;
    }
    let mut j: usize = 0;
    while j < struct_fields.len()
        invariant
            j <= struct_fields@.len(),
            names@.len() == struct_fields@.len(),
            models == field_models(fields@),
            models.len() == fields@.len(),
            schema@ == (crate::schema::SchemaModel::Record { fields: models }),
            forall|k: int| 0 <= k < fields@.len() ==> (#[trigger] fields@[k]).wf(),
            forall|k: int| 0 <= k < fields@.len() ==> (#[trigger] models[k]) == fields@[k]@,
            variant_names(names@) == host_names,
            host_names == schema_names(struct_fields@),
            forall|k: int| 0 <= k < fields@.len() ==> host_names.contains((#[trigger] models[k]).name),
            forall|k: int|
                0 <= k < j ==> (field_named(models, #[trigger] host_names[k]) matches Some(field)
                    && type_fits(field, struct_fields@[k].ty)),
        decreases struct_fields@.len() - j,
    {
        assert(host_names[j as int] == names@[j as int]@);
        let index: usize = match find_field(fields, names[j].as_str()) {
            Some(index) => index,
            None => {
                return Err(about("Missing in the schema: field", names[j].as_str()));
            },
        };
        match validate_field_type(&fields[index], &struct_fields[j].ty) {
            Ok(()) => {},
            Err(message) => {
                return Err(message);
            },
        }
        j = j + 1;
    }
    Ok(())
}

/// Whether two lists hold the same names: every name of each is a name of the
/// other.
pub open spec fn same_names(schema: Seq<Seq<char>>, host: Seq<Seq<char>>) -> bool {
    &&& forall|i: int| 0 <= i < host.len() ==> schema.contains(#[trigger] host[i])
    &&& forall|i: int| 0 <= i < schema.len() ==> host.contains(#[trigger] schema[i])
}

/// Checks that a host enumeration with the variants `variants` has the same
/// variants as the enumeration schema `schema`.
pub fn validate_enum_schema(schema: &EnumSchema, variants: &Vec<String>) -> (r: Result<(), String>)
    ensures
        r is Ok <==> same_names(variant_names(schema.variants@), variant_names(variants@)),
{
    let ghost schema_list = variant_names(schema.variants@);
    let ghost host_list = variant_names(variants@);
    let mut i: usize = 0;
    while i < variants.len()
        invariant
            i <= variants@.len(),
            schema_list == variant_names(schema.variants@),
            host_list == variant_names(variants@),
            forall|k: int| 0 <= k < i ==> schema_list.contains(#[trigger] host_list[k]),
        decreases variants@.len() - i,
    {
        if !contains_text(&schema.variants, variants[i].as_str()) {
            assert(!schema_list.contains(host_list[i as int]));
            return Err(about("Missing in the schema: variant", variants[i].as_str()));
        }
        i = i + 1;
    }
    let mut i: usize = 0;
    while i < schema.variants.len()
        invariant
            i <= schema.variants@.len(),
            schema_list == variant_names(schema.variants@),
            host_list == variant_names(variants@),
            forall|k: int| 0 <= k < host_list.len() ==> schema_list.contains(#[trigger] host_list[k]),
            forall|k: int| 0 <= k < i ==> host_list.contains(#[trigger] schema_list[k]),
        decreases schema.variants@.len() - i,
    {
        if !contains_text(variants, schema.variants[i].as_str()) {
            assert(!host_list.contains(schema_list[i as int]));
            return Err(about("Missing in the enum: variant", schema.variants[i].as_str()));
        }
        i = i + 1;
    }
    Ok(())
}

} // verus!
