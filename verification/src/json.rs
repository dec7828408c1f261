//! JSON values, as far as the price table reads them.
//!
//! `serde_json` parses the text and holds the values. What its accessors answer
//! is named here, and everything above speaks of those names.
use serde_json::Value;
use vstd::prelude::*;

verus! {

/// A JSON value.
#[verifier::external_type_specification]
#[verifier::external_body]
pub struct ExValue(serde_json::Value);

/// Why a text is not JSON.
#[verifier::external_type_specification]
#[verifier::external_body]
pub struct ExJsonError(serde_json::Error);

/// What `serde_json::from_slice` reads in a text, or why it is not JSON.
pub uninterp spec fn json_text(bytes: Seq<u8>) -> Result<Value, serde_json::Error>;

/// The members that `Value::as_object` finds, in the object's own order.
pub uninterp spec fn json_object(value: Value) -> Option<Seq<(Seq<char>, Value)>>;

/// The items that `Value::as_array` finds.
pub uninterp spec fn json_array(value: Value) -> Option<Seq<Value>>;

/// The bits of the binary64 number that `Value::as_f64` finds.
pub uninterp spec fn json_number(value: Value) -> Option<u64>;

/// What `Value::is_null` says.
pub uninterp spec fn json_null(value: Value) -> bool;

/// Names and values, the names as text.
pub open spec fn members(found: Seq<(&String, &Value)>) -> Seq<(Seq<char>, Value)> {
    found.map_values(|member: (&String, &Value)| (member.0@, *member.1))
}

/// `serde_json::from_slice` either reads the whole text as one value, or says
/// where and why it is not JSON; the text alone decides which, and what.
#[verifier::external_body]
pub(crate) fn parse(bytes: &[u8]) -> (result: Result<Value, serde_json::Error>)
    ensures
        result == json_text(bytes@),
{
    serde_json::from_slice(bytes)
}

/// `Value::as_object` gives the members of an object, and nothing for any other
/// value.
#[verifier::external_body]
pub(crate) fn object_members(value: &Value) -> (result: Option<Vec<(&String, &Value)>>)
    ensures
        match result {
            Some(found) => json_object(*value) == Some(members(found@)),
            None => json_object(*value) is None,
        },
{
    match value.as_object() {
        Some(map) => Some(map.iter().collect()),
        None => None,
    }
}

/// `Value::as_array` gives the items of an array, and nothing for any other
/// value.
#[verifier::external_body]
pub(crate) fn array_items(value: &Value) -> (result: Option<Vec<&Value>>)
    ensures
        match result {
            Some(found) => json_array(*value) == Some(found@.map_values(|item: &Value| *item)),
            None => json_array(*value) is None,
        },
{
    match value.as_array() {
        Some(items) => Some(items.iter().collect()),
        None => None,
    }
}

/// `Value::as_f64` gives a number, and nothing for any other value.
#[verifier::external_body]
pub(crate) fn number_bits(value: &Value) -> (result: Option<u64>)
    ensures
        result == json_number(*value),
{
    match value.as_f64() {
        Some(number) => Some(number.to_bits()),
        None => None,
    }
}

/// `Value::is_null` says whether the value is `null`.
pub assume_specification[ Value::is_null ](value: &Value) -> (result: bool)
    ensures
        result == json_null(*value),
;

} // verus!
