//! JSON documents as plain values, and the reading of a document from text.

use vstd::prelude::*;

verus! {

/// A JSON document.
#[derive(Debug, PartialEq, Eq)]
pub enum Json {
    Null,
    Bool(bool),
    /// A number: as a signed and as an unsigned 64-bit integer, where it is
    /// one. A number with a fraction or an exponent is neither.
    Number { signed: Option<i64>, unsigned: Option<u64> },
    String(String),
    Array(Vec<Json>),
    /// The members of an object, in the order of the document.
    Object(Vec<(String, Json)>),
}

#[verifier::external_type_specification]
#[verifier::external_body]
pub struct ExJsonValue(serde_json::Value);

/// The document that `serde_json::from_str` reads from a text, where it
/// reads one.
pub uninterp spec fn json_document(text: Seq<char>) -> Option<Json>;

/// Calls `serde_json::from_str` for a `serde_json::Value` and turns the
/// value into a document. The result is the one that function gives for the
/// text: the document, or nothing where the text is not a JSON document.
#[verifier::external_body]
fn read_document(text: &str) -> (document: Option<Json>)
    ensures
        document == json_document(text@),
{
    match serde_json::from_str::<serde_json::Value>(text) {
        Ok(value) => Some(json_from_value(&value)),
        Err(_) => None,
    }
}

/// The JSON document that `text` holds, where it holds one.
pub fn parse_json(text: &str) -> (document: Option<Json>)
    ensures
        document == json_document(text@),
{
    read_document(text)
}

/// Turns a `serde_json::Value` into a document, variant by variant. A number
/// is taken with `Number::as_i64` and `Number::as_u64`. Nothing is claimed of
/// the result.
#[verifier::external_body]
fn json_from_value(value: &serde_json::Value) -> Json {
    match value {
        serde_json::Value::Null => Json::Null,
        serde_json::Value::Bool(truth) => Json::Bool(*truth),
        serde_json::Value::Number(number) => Json::Number {
            signed: number.as_i64(),
            unsigned: number.as_u64(),
        },
        serde_json::Value::String(text) => Json::String(text.clone()),
        serde_json::Value::Array(items) => Json::Array(items.iter().map(json_from_value).collect()),
        serde_json::Value::Object(members) => Json::Object(
            members.iter().map(|(key, item)| (key.clone(), json_from_value(item))).collect(),
        ),
    }
}

/// The first member named `key` among `members`.
pub open spec fn member_of(members: Seq<(String, Json)>, key: Seq<char>) -> Option<Json>
    decreases members.len(),
{
    if members.len() == 0 {
        None
    } else if members[0].0@ == key {
        Some(members[0].1)
    } else {
        member_of(members.drop_first(), key)
    }
}

/// A member found among the members of an object is one of them.
pub proof fn lemma_member_of_index(members: Seq<(String, Json)>, key: Seq<char>) -> (i: int)
    requires
        member_of(members, key) is Some,
    ensures
        0 <= i < members.len(),
        members[i].0@ == key,
        members[i].1 == member_of(members, key)->Some_0,
    decreases members.len(),
{
    if members[0].0@ == key {
        0
    } else {
        let rest = lemma_member_of_index(members.drop_first(), key);
        rest + 1
    }
}

/// A member found among the members of an object is smaller than the object.
pub proof fn lemma_member_of_decreases(members: Vec<(String, Json)>, key: Seq<char>)
    ensures
        member_of(members@, key) matches Some(json) ==> decreases_to!(members => json),
{
    if member_of(members@, key) is Some {
        let i = lemma_member_of_index(members@, key);
        vstd::std_specs::vec::axiom_vec_index_decreases(members, i);
        assert(decreases_to!(members[i] => members[i].1));
    }
}

/// Whether two texts are the same.
pub fn same_text(left: &str, right: &str) -> (same: bool)
    ensures
        same == (left@ == right@),
{
    let left_owned: String = left.to_owned();
    let right_owned: String = right.to_owned();
    left_owned == right_owned
}

/// The first member named `key` among `members`.
pub fn find_member<'a>(members: &'a Vec<(String, Json)>, key: &str) -> (found: Option<&'a Json>)
    ensures
        match member_of(members@, key@) {
            Some(json) => found matches Some(member) && *member == json,
            None => found is None,
        },
{
    let mut i: usize = 0;
    proof {
        assert(members@.skip(0) =~= members@);
    }
    while i < members.len()
        invariant
            i <= members@.len(),
            member_of(members@, key@) == member_of(members@.skip(i as int), key@),
        decreases members@.len() - i,
    {
        proof {
            assert(members@.skip(i as int).drop_first() =~= members@.skip(i + 1));
        }
        if same_text(members[i].0.as_str(), key) {
            return Some(&members[i].1);
        }
        i = i + 1;
    }
    None
}

impl Json {
    /// The text, where the document is a string.
    pub open spec fn spec_text(&self) -> Option<Seq<char>> {
        match self {
            Json::String(text) => Some(text@),
            _ => None,
        }
    }

    /// The member named `key`, where the document is an object that has one.
    pub open spec fn spec_get(&self, key: Seq<char>) -> Option<Json> {
        match self {
            Json::Object(members) => member_of(members@, key),
            _ => None,
        }
    }

    /// The truth value, where the document is one.
    pub open spec fn spec_bool(&self) -> Option<bool> {
        match self {
            Json::Bool(truth) => Some(*truth),
            _ => None,
        }
    }

    /// The number as a signed integer, where the document is one.
    pub open spec fn spec_i64(&self) -> Option<i64> {
        match self {
            Json::Number { signed, .. } => *signed,
            _ => None,
        }
    }

    /// The number as an unsigned integer, where the document is one.
    pub open spec fn spec_u64(&self) -> Option<u64> {
        match self {
            Json::Number { unsigned, .. } => *unsigned,
            _ => None,
        }
    }

    /// The text, where the document is a string.
    pub fn as_str(&self) -> (text: Option<&str>)
        ensures
            match self.spec_text() {
                Some(chars) => text matches Some(t) && t@ == chars,
                None => text is None,
            },
    {
        match self {
            Json::String(text) => Some(text.as_str()),
            _ => None,
        }
    }

    /// The truth value, where the document is one.
    pub fn as_bool(&self) -> (truth: Option<bool>)
        ensures
            truth == self.spec_bool(),
    {
        match self {
            Json::Bool(truth) => Some(*truth),
            _ => None,
        }
    }

    /// The number as a signed integer, where the document is one.
    pub fn as_i64(&self) -> (number: Option<i64>)
        ensures
            number == self.spec_i64(),
    {
        match self {
            Json::Number { signed, .. } => *signed,
            _ => None,
        }
    }

    /// The number as an unsigned integer, where the document is one.
    pub fn as_u64(&self) -> (number: Option<u64>)
        ensures
            number == self.spec_u64(),
    {
        match self {
            Json::Number { unsigned, .. } => *unsigned,
            _ => None,
        }
    }

    /// The items, where the document is an array.
    pub fn as_array(&self) -> (items: Option<&Vec<Json>>)
        ensures
            match self {
                Json::Array(list) => items == Some(list),
                _ => items is None,
            },
    {
        match self {
            Json::Array(items) => Some(items),
            _ => None,
        }
    }

    /// The members, where the document is an object.
    pub fn as_object(&self) -> (members: Option<&Vec<(String, Json)>>)
        ensures
            match self {
                Json::Object(list) => members == Some(list),
                _ => members is None,
            },
    {
        match self {
            Json::Object(members) => Some(members),
            _ => None,
        }
    }

    /// The member named `key`, where the document is an object that has one.
    pub fn get(&self, key: &str) -> (found: Option<&Json>)
        ensures
            match self.spec_get(key@) {
                Some(json) => found matches Some(member) && *member == json,
                None => found is None,
            },
    {
        match self {
            Json::Object(members) => find_member(members, key),
            _ => None,
        }
    }
}

} // verus!
