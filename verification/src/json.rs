//! Reading JSON through `serde_json`.
//!
//! A parsed value stays a `serde_json::Value`. What it holds is spoken of as a `JsonTree`.

use serde_json::Value;
use vstd::prelude::*;

use crate::double::Double;

verus! {

/// What a JSON value holds.
pub enum JsonTree {
    Null,
    Bool(bool),
    /// A number, by its two readings: the unsigned 64-bit integer that it is, if it is one,
    /// and the double-precision number that it stands for.
    Number { unsigned: Option<u64>, double: Double },
    Text(Seq<char>),
    Array(Seq<JsonTree>),
    Object(Map<Seq<char>, JsonTree>),
}

impl JsonTree {
    /// The value under a key, if this is an object that has the key.
    pub open spec fn field(self, key: Seq<char>) -> Option<JsonTree> {
        match self {
            JsonTree::Object(fields) => if fields.contains_key(key) {
                Some(fields[key])
            } else {
                None
            },
            _ => None,
        }
    }

    /// The characters, if this is a text.
    pub open spec fn as_text(self) -> Option<Seq<char>> {
        match self {
            JsonTree::Text(s) => Some(s),
            _ => None,
        }
    }

    /// The truth value, if this is one.
    pub open spec fn as_flag(self) -> Option<bool> {
        match self {
            JsonTree::Bool(flag) => Some(flag),
            _ => None,
        }
    }

    /// The unsigned integer, if this is one.
    pub open spec fn as_unsigned(self) -> Option<u64> {
        match self {
            JsonTree::Number { unsigned, double } => unsigned,
            _ => None,
        }
    }

    /// The double-precision number, if this is a number.
    pub open spec fn as_number(self) -> Option<Double> {
        match self {
            JsonTree::Number { unsigned, double } => Some(double),
            _ => None,
        }
    }

    /// The items, if this is an array.
    pub open spec fn as_items(self) -> Option<Seq<JsonTree>> {
        match self {
            JsonTree::Array(items) => Some(items),
            _ => None,
        }
    }

    /// The text under a key.
    pub open spec fn field_text(self, key: Seq<char>) -> Option<Seq<char>> {
        match self.field(key) {
            Some(value) => value.as_text(),
            None => None,
        }
    }

    /// The number under a key.
    pub open spec fn field_number(self, key: Seq<char>) -> Option<Double> {
        match self.field(key) {
            Some(value) => value.as_number(),
            None => None,
        }
    }

    /// The text under the first key, or under the second where the first is missing. A first
    /// key that holds something else than a text is not missing.
    pub open spec fn either_text(self, first: Seq<char>, second: Seq<char>) -> Option<Seq<char>> {
        match self.field(first) {
            Some(value) => value.as_text(),
            None => self.field_text(second),
        }
    }
}

/// What the list of values holds.
pub open spec fn trees(values: Seq<Value>) -> Seq<JsonTree> {
    values.map_values(|value: Value| json_tree(value))
}

/// `serde_json::Value`, a parsed JSON value.
#[verifier::external_type_specification]
#[verifier::external_body]
pub struct ExValue(serde_json::Value);

/// `serde_json::Error`, why bytes are not JSON.
#[verifier::external_type_specification]
#[verifier::external_body]
pub struct ExError(serde_json::Error);

/// What a `serde_json::Value` holds.
pub uninterp spec fn json_tree(value: serde_json::Value) -> JsonTree;

/// What bytes hold when `serde_json::from_slice` reads them as one JSON value; nothing where
/// it refuses them.
pub uninterp spec fn json_parse(bytes: Seq<u8>) -> Option<JsonTree>;

/// Calls `serde_json::from_slice` for a `Value`. Whether it accepts the bytes, and what the
/// value then holds, depends on the bytes alone; the grammar is left to the name.
#[verifier::external_body]
pub(crate) fn parse_json(bytes: &[u8]) -> (parsed: Result<Value, serde_json::Error>)
    ensures
        match parsed {
            Ok(value) => json_parse(bytes@) == Some(json_tree(value)),
            Err(_) => json_parse(bytes@) is None,
        },
{
    serde_json::from_slice(bytes)
}

/// Calls `Value::get` with a string: the value under the key of an object, and nothing where
/// the key is missing or the value is no object.
#[verifier::external_body]
pub(crate) fn get<'a>(value: &'a Value, key: &str) -> (found: Option<&'a Value>)
    ensures
        match found {
            Some(child) => json_tree(*value).field(key@) == Some(json_tree(*child)),
            None => json_tree(*value).field(key@) is None,
        },
{
    value.get(key)
}

/// Calls `Value::as_f64`, which reads any number as double-precision, and hands on its bits.
#[verifier::external_body]
pub(crate) fn as_double(value: &Value) -> (number: Option<Double>)
    ensures
        number == json_tree(*value).as_number(),
{
    match value.as_f64() {
        Some(number) => Some(Double { bits: number.to_bits() }),
        None => None,
    }
}

/// `Value::as_str` gives the characters of a text, and nothing for any other value.
pub assume_specification[ serde_json::Value::as_str ](value: &serde_json::Value) -> (found: Option<
    &str,
>)
    ensures
        match found {
            Some(s) => json_tree(*value).as_text() == Some(s@),
            None => json_tree(*value).as_text() is None,
        },
;

/// `Value::as_bool` gives a truth value, and nothing for any other value.
pub assume_specification[ serde_json::Value::as_bool ](value: &serde_json::Value) -> (found: Option<
    bool,
>)
    ensures
        found == json_tree(*value).as_flag(),
;

/// `Value::as_u64` gives an unsigned integer, and nothing for any other value.
pub assume_specification[ serde_json::Value::as_u64 ](value: &serde_json::Value) -> (found: Option<
    u64,
>)
    ensures
        found == json_tree(*value).as_unsigned(),
;

/// `Value::as_array` gives the items of an array in their order, and nothing for any other
/// value.
pub assume_specification[ serde_json::Value::as_array ](value: &serde_json::Value) -> (found:
    Option<&Vec<serde_json::Value>>)
    ensures
        match found {
            Some(items) => json_tree(*value).as_items() == Some(trees(items@)),
            None => json_tree(*value).as_items() is None,
        },
;

/// The text in an optional value.
fn text_in(value: Option<&Value>) -> (found: Option<String>)
    ensures
        match value {
            Some(v) => match found {
                Some(s) => json_tree(*v).as_text() == Some(s@),
                None => json_tree(*v).as_text() is None,
            },
            None => found is None,
        },
{
    match value {
        Some(v) => match v.as_str() {
            Some(s) => Some(s.to_owned()),
            None => None,
        },
        None => None,
    }
}

/// The text under a key.
pub fn get_text(value: &Value, key: &str) -> (found: Option<String>)
    ensures
        match found {
            Some(s) => json_tree(*value).field_text(key@) == Some(s@),
            None => json_tree(*value).field_text(key@) is None,
        },
{
    text_in(get(value, key))
}

/// The text under the first key, or under the second where the first is missing.
pub fn get_either_text(value: &Value, first: &str, second: &str) -> (found: Option<String>)
    ensures
        match found {
            Some(s) => json_tree(*value).either_text(first@, second@) == Some(s@),
            None => json_tree(*value).either_text(first@, second@) is None,
        },
{
    match get(value, first) {
        Some(v) => text_in(Some(v)),
        None => text_in(get(value, second)),
    }
}

/// The number under a key.
pub fn get_number(value: &Value, key: &str) -> (found: Option<Double>)
    ensures
        found == json_tree(*value).field_number(key@),
{
    match get(value, key) {
        Some(v) => as_double(v),
        None => None,
    }
}

} // verus!
