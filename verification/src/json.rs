//! Metadata: JSON values, stored as text.

use crate::text::text_of;
use serde_json::Value;
use vstd::prelude::*;

verus! {

/// A JSON value. What it holds is of no concern here; it is only carried along.
#[verifier::external_type_specification]
#[verifier::external_body]
pub struct ExValue(serde_json::Value);

/// What was wrong with a text that is no JSON.
#[verifier::external_type_specification]
#[verifier::external_body]
pub struct ExError(serde_json::Error);

/// The text of a JSON value.
pub uninterp spec fn json_text(value: serde_json::Value) -> Seq<char>;

/// The JSON value that a text holds, if it holds one.
pub uninterp spec fn json_value(text: Seq<char>) -> Option<serde_json::Value>;

/// Calls `to_string` of `serde_json::Value`, its `Display`: the compact JSON text,
/// which depends on the value alone.
#[verifier::external_body]
fn print_json(value: &Value) -> (text: String)
    ensures
        text@ == json_text(*value),
{
    value.to_string()
}

/// Calls `serde_json::from_str`: whether the text is JSON, and which value it
/// holds, depends on the text alone. That printing a value and reading it back
/// gives the value again is not claimed: a fraction may come back with another
/// last bit, and values nested too deeply are not read.
#[verifier::external_body]
fn read_json(text: &str) -> (r: Result<Value, serde_json::Error>)
    ensures
        match r {
            Ok(value) => json_value(text@) == Some(value),
            Err(_) => json_value(text@) is None,
        },
{
    serde_json::from_str(text)
}

/// How metadata is stored.
pub open spec fn stored_metadata(metadata: Option<Value>) -> Option<Seq<char>> {
    match metadata {
        Some(value) => Some(json_text(value)),
        None => None,
    }
}

/// What stored metadata stands for: nothing if there is none, or if its text is no JSON.
pub open spec fn read_metadata(stored: Option<Seq<char>>) -> Option<Value> {
    match stored {
        Some(text) => json_value(text),
        None => None,
    }
}

/// The text under which metadata is stored.
pub fn metadata_to_text(metadata: &Option<Value>) -> (text: Option<String>)
    ensures
        text_of(text) == stored_metadata(*metadata),
{
    match metadata {
        Some(value) => Some(print_json(value)),
        None => None,
    }
}

/// The metadata that a stored text stands for.
pub fn metadata_from_text(text: &Option<String>) -> (metadata: Option<Value>)
    ensures
        metadata == read_metadata(text_of(*text)),
{
    match text {
        Some(t) => match read_json(t.as_str()) {
            Ok(value) => Some(value),
            Err(_) => None,
        },
        None => None,
    }
}

} // verus!
