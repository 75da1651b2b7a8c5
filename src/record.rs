//! What the library takes from serde_json: parsing a structured record,
//! reading its members, and printing it back.

use vstd::prelude::*;

verus! {

#[verifier::external_type_specification]
#[verifier::external_body]
pub struct ExJsonValue(serde_json::Value);

#[verifier::external_type_specification]
#[verifier::external_body]
pub struct ExJsonError(serde_json::Error);

/// The value that `serde_json::from_str` reads from a text, or `None` where
/// it rejects the text.
pub uninterp spec fn json_of(text: Seq<char>) -> Option<serde_json::Value>;

/// What `Value::get` with a string key returns: the member of that name of
/// an object; `None` for a missing key or a value that is no object.
pub uninterp spec fn member_of(v: serde_json::Value, key: Seq<char>) -> Option<serde_json::Value>;

/// What `Value::as_array` returns: the elements of an array.
pub uninterp spec fn items_of(v: serde_json::Value) -> Option<Seq<serde_json::Value>>;

/// What `Value::as_str` returns: the characters of a string value.
pub uninterp spec fn str_of(v: serde_json::Value) -> Option<Seq<char>>;

/// What `Value::as_u64` returns: a number that is a non-negative integer
/// within `u64`.
pub uninterp spec fn u64_of(v: serde_json::Value) -> Option<u64>;

/// What `serde_json::to_string_pretty` prints for a value.
pub uninterp spec fn pretty_of(v: serde_json::Value) -> Seq<char>;

/// Relies on `serde_json::from_str::<Value>`: it reads a JSON document or
/// fails, and the outcome depends on the text alone.
#[verifier::external_body]
pub(crate) fn read_json(text: &str) -> (r: Result<serde_json::Value, serde_json::Error>)
    ensures
        match r {
            Ok(v) => json_of(text@) == Some(v),
            Err(_) => json_of(text@) is None,
        },
{
    serde_json::from_str(text)
}

/// Relies on `serde_json::Value::get` with a `&str` key: the member of that
/// name where the value is an object, else `None`.
#[verifier::external_body]
pub(crate) fn member<'a>(v: &'a serde_json::Value, key: &str) -> (r: Option<&'a serde_json::Value>)
    ensures
        match r {
            Some(m) => member_of(*v, key@) == Some(*m),
            None => member_of(*v, key@) is None,
        },
{
    v.get(key)
}

/// Relies on `serde_json::Value::as_array`: the elements where the value is
/// an array, else `None`.
#[verifier::external_body]
pub(crate) fn items(v: &serde_json::Value) -> (r: Option<&Vec<serde_json::Value>>)
    ensures
        match r {
            Some(a) => items_of(*v) == Some(a@),
            None => items_of(*v) is None,
        },
{
    v.as_array()
}

/// Relies on `serde_json::Value::as_str`: the text where the value is a
/// string, else `None`.
#[verifier::external_body]
pub(crate) fn text_value(v: &serde_json::Value) -> (r: Option<&str>)
    ensures
        match r {
            Some(s) => str_of(*v) == Some(s@),
            None => str_of(*v) is None,
        },
{
    v.as_str()
}

/// Relies on `serde_json::Value::as_u64`: the number where the value is an
/// integer that fits in `u64`, else `None`.
#[verifier::external_body]
pub(crate) fn unsigned_value(v: &serde_json::Value) -> (r: Option<u64>)
    ensures
        r == u64_of(*v),
{
    v.as_u64()
}

/// Relies on `serde_json::to_string_pretty` for a `Value`: it succeeds
/// (a `Value`'s `Serialize` impl has no failing path, its object keys are
/// strings, and the output goes to a `Vec`), and the text is `pretty_of` the
/// value.
#[verifier::external_body]
pub(crate) fn pretty(v: &serde_json::Value) -> (r: Result<String, serde_json::Error>)
    ensures
        r is Ok,
        r matches Ok(s) ==> s@ == pretty_of(*v),
{
    serde_json::to_string_pretty(v)
}

} // verus!
