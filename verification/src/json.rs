//! The trusted boundary around `serde_json`: parsing a block's metadata text
//! into a value the verified decoder can read.

use vstd::prelude::*;

verus! {

/// A JSON value reduced to what the metadata decoder reads; a number is kept
/// only when it is an unsigned integer, since every numeric metadata field is
/// a line position.
#[derive(Debug)]
pub enum JsonValue {
    /// JSON `null`.
    Null,
    /// A boolean.
    Bool(bool),
    /// A number; `None` when it is negative or not an integer.
    Num(Option<u64>),
    /// A string.
    Str(String),
    /// An array, in element order.
    Arr(Vec<JsonValue>),
    /// An object, as key-value pairs in the parser's sorted key order,
    /// without duplicate keys.
    Obj(Vec<(String, JsonValue)>),
}

/// The value that parsing the text as JSON yields, reduced as `JsonValue`
/// is, or `None` when the parse fails; the outcome depends on the characters
/// alone.
pub uninterp spec fn json_of(s: Seq<char>) -> Option<JsonValue>;

#[verifier::external_type_specification]
#[verifier::external_body]
pub struct ExValue(serde_json::Value);

/// Relies on `serde_json::from_str`: parses the text as JSON,
/// deterministically in the text alone; the parse fails on malformed text
/// and on nesting beyond the parser's fixed recursion limit.
#[verifier::external_body]
pub fn parse_json(s: &str) -> (r: Option<JsonValue>)
    ensures
        r == json_of(s@),
{
    match serde_json::from_str::<serde_json::Value>(s) {
        Ok(v) => Some(reduce(v)),
        Err(_) => None,
    }
}

/// Relies on `serde_json::Value` and `serde_json::Number::as_u64`: maps each
/// variant of the parsed value onto `JsonValue`, one arm each; object fields
/// come out in the backing map's sorted, duplicate-free key order.
#[verifier::external_body]
fn reduce(v: serde_json::Value) -> JsonValue {
    match v {
        serde_json::Value::Null => JsonValue::Null,
        serde_json::Value::Bool(b) => JsonValue::Bool(b),
        serde_json::Value::Number(n) => JsonValue::Num(n.as_u64()),
        serde_json::Value::String(s) => JsonValue::Str(s),
        serde_json::Value::Array(a) => JsonValue::Arr(a.into_iter().map(reduce).collect()),
        serde_json::Value::Object(o) => JsonValue::Obj(
            o.into_iter().map(|(k, w)| (k, reduce(w))).collect(),
        ),
    }
}

} // verus!
