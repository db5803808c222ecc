//! The JSON value type of serde_json, declared so that request bodies
//! can carry provider-specific values through the library opaquely,
//! and names for the values the library itself writes into a body.

use vstd::prelude::*;

verus! {

#[verifier::external_type_specification]
#[verifier::external_body]
pub struct ExValue(serde_json::Value);

/// The JSON value wrapping the string with these characters; a function
/// of them alone.
pub uninterp spec fn json_string_of(s: Seq<char>) -> serde_json::Value;

/// The JSON value wrapping this boolean; a function of it alone.
pub uninterp spec fn json_bool_of(b: bool) -> serde_json::Value;

/// Relies on serde_json::Value::String: wraps a string as a JSON value.
#[verifier::external_body]
pub(crate) fn json_string_value(s: String) -> (r: serde_json::Value)
    ensures
        r == json_string_of(s@),
{
    serde_json::Value::String(s)
}

/// Relies on serde_json::Value::Bool: wraps a boolean as a JSON value.
#[verifier::external_body]
pub(crate) fn json_bool_value(b: bool) -> (r: serde_json::Value)
    ensures
        r == json_bool_of(b),
{
    serde_json::Value::Bool(b)
}

} // verus!
