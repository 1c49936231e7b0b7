use vstd::prelude::*;

verus! {

/// JSON payloads travel through the core opaquely: the core frames and routes
/// them but, with one exception, never looks inside. The exception is the
/// create-target response, from which the id of the new target is read; the
/// two wrappers below do that lookup.
#[verifier::external_type_specification]
#[verifier::external_body]
pub struct ExValue(serde_json::Value);

/// What `serde_json::Value::get` returns for a value and a string key: the
/// field of that name if the value is an object holding one.
pub uninterp spec fn json_field(v: serde_json::Value, key: Seq<char>) -> Option<serde_json::Value>;

/// What `serde_json::Value::as_str` returns: the characters of the value if
/// it is a JSON string.
pub uninterp spec fn json_str(v: serde_json::Value) -> Option<Seq<char>>;

/// Relies on `serde_json::Value::get`: looks a key up in a JSON object,
/// `None` for any other shape of value or a missing key.
#[verifier::external_body]
pub fn value_get<'a>(v: &'a serde_json::Value, key: &str) -> (r: Option<&'a serde_json::Value>)
    ensures
        match r {
            Some(f) => json_field(*v, key@) == Some(*f),
            None => json_field(*v, key@) is None,
        },
{
    v.get(key)
}

/// Relies on `serde_json::Value::as_str`: the contents of a JSON string,
/// `None` for any other shape of value.
#[verifier::external_body]
pub fn value_as_str(v: &serde_json::Value) -> (r: Option<String>)
    ensures
        match r {
            Some(s) => json_str(*v) == Some(s@),
            None => json_str(*v) is None,
        },
{
    v.as_str().map(|s| s.to_owned())
}

} // verus!
