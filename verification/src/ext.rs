//! The trusted boundary around the outside crates: the JSON parser and the
//! error types that callers of the library see.

use vstd::prelude::*;

use crate::json::{JsonV, JsonVal};

verus! {

#[verifier::external_type_specification]
#[verifier::external_body]
pub struct ExValue(serde_json::Value);

/// The document that a piece of JSON text parses to, if any.  Parsing
/// depends on the text alone; what this function returns is fixed by
/// `serde_json`'s grammar and by the numeric model of [`JsonVal`].
pub uninterp spec fn json_parse(s: Seq<char>) -> Option<JsonV>;

/// Relies on serde_json::from_str: parses JSON text into a tree value, or
/// fails exactly when the text is not valid JSON, in which case the parse
/// error's message is returned.  The returned tree is well-formed because
/// serde_json's maps hold each key once.
#[verifier::external_body]
pub fn parse_json(s: &str) -> (r: Result<JsonVal, String>)
    ensures
        r is Ok <==> json_parse(s@) is Some,
        r is Ok ==> r->Ok_0@ == json_parse(s@)->Some_0 && r->Ok_0@.wf(),
{
    match serde_json::from_str::<serde_json::Value>(s) {
        Ok(v) => Ok(value_to_json(&v)),
        Err(e) => Err(e.to_string()),
    }
}

/// Relies on serde_json::Value's accessors: each variant is carried over
/// one-for-one, a number through Number::as_i64 when it is a signed 64-bit
/// integer and through Number's canonical text otherwise, and a map through
/// iteration, which yields each key exactly once in sorted order.
#[verifier::external_body]
fn value_to_json(v: &serde_json::Value) -> (r: JsonVal)
    ensures
        r@.wf(),
{
    match v {
        serde_json::Value::Null => JsonVal::Null,
        serde_json::Value::Bool(b) => JsonVal::Bool(*b),
        serde_json::Value::Number(n) => match n.as_i64() {
            Some(i) => JsonVal::Int(i),
            None => JsonVal::Num(n.to_string()),
        },
        serde_json::Value::String(s) => JsonVal::Str(s.clone()),
        serde_json::Value::Array(a) => JsonVal::Arr(a.iter().map(value_to_json).collect()),
        serde_json::Value::Object(m) => JsonVal::Obj(
            m.iter().map(|(k, x)| (k.clone(), value_to_json(x))).collect(),
        ),
    }
}

} // verus!
