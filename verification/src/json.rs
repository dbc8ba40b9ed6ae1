//! JSON values of the `serde_json` crate, as far as the library reads and
//! makes them. A `serde_json::Value` is opaque here: what the calls below
//! give back is named, not described.
use vstd::prelude::*;

verus! {

#[verifier::external_type_specification]
#[verifier::external_body]
pub struct ExJsonValue(serde_json::Value);

/// The JSON string whose text is `text`.
pub uninterp spec fn json_string(text: Seq<char>) -> serde_json::Value;

/// `serde_json::Value::String`: the JSON string of `text`.
#[verifier::external_body]
pub fn make_json_string(text: String) -> (res: serde_json::Value)
    ensures
        res == json_string(text@),
{
    serde_json::Value::String(text)
}

/// The entry `key` of a JSON object, `None` when there is none or the value is no object.
pub uninterp spec fn json_field(v: serde_json::Value, key: Seq<char>) -> Option<serde_json::Value>;

/// `serde_json::Value::get` with a string key.
#[verifier::external_body]
pub fn json_get<'a>(v: &'a serde_json::Value, key: &str) -> (res: Option<&'a serde_json::Value>)
    ensures
        match res {
            Some(r) => json_field(*v, key@) == Some(*r),
            None => json_field(*v, key@) is None,
        },
{
    v.get(key)
}

/// The text of a JSON string, `None` for any other value.
pub uninterp spec fn json_str(v: serde_json::Value) -> Option<Seq<char>>;

/// `serde_json::Value::as_str`.
#[verifier::external_body]
pub fn json_as_str(v: &serde_json::Value) -> (res: Option<&str>)
    ensures
        match res {
            Some(s) => json_str(*v) == Some(s@),
            None => json_str(*v) is None,
        },
{
    v.as_str()
}

/// The compact JSON text of a value.
pub uninterp spec fn json_text(v: serde_json::Value) -> Seq<char>;

/// `serde_json::Value`'s `Display` (`to_string`): its compact JSON text.
#[verifier::external_body]
pub fn json_to_string(v: &serde_json::Value) -> (res: String)
    ensures
        res@ == json_text(*v),
{
    v.to_string()
}

} // verus!
