use vstd::prelude::*;

verus! {

/// What `serde_json` reads at `key` (and then at `inner`, where given) of a
/// JSON text: `None` where the text is no JSON, `Some(None)` where no string
/// stands there, else the string. A function of the text and the keys alone.
pub uninterp spec fn json_string_member(text: Seq<char>, key: Seq<char>, inner: Option<Seq<char>>) -> Option<Option<Seq<char>>>;

/// Whether `serde_json` finds an object at `key` of a JSON text: `None`
/// where the text is no JSON. A function of the text and the key alone.
pub uninterp spec fn json_object_member(text: Seq<char>, key: Seq<char>) -> Option<bool>;

/// The text of an optional string slice.
pub open spec fn opt_str_view(o: Option<&str>) -> Option<Seq<char>> {
    match o {
        Some(s) => Some(s@),
        None => None,
    }
}

/// The text of an optional optional string.
pub open spec fn opt_opt_view(o: Option<Option<String>>) -> Option<Option<Seq<char>>> {
    match o {
        Some(Some(s)) => Some(Some(s@)),
        Some(None) => Some(None),
        None => None,
    }
}

/// Parses `text` with `serde_json::from_str` into a `serde_json::Value`
/// and reads, with `Value`'s indexing by key, the member `key` (then its
/// member `inner`), taking it with `Value::as_str`. Trusted to give what
/// `json_string_member` names.
#[verifier::external_body]
pub fn json_string_at(text: &str, key: &str, inner: Option<&str>) -> (r: Option<Option<String>>)
    ensures
        opt_opt_view(r) == json_string_member(text@, key@, opt_str_view(inner)),
{
    let value: serde_json::Value = match serde_json::from_str(text) {
        Ok(v) => v,
        Err(_) => return None,
    };
    let member = match inner {
        Some(k) => &value[key][k],
        None => &value[key],
    };
    Some(member.as_str().map(|s| s.to_string()))
}

/// Parses `text` with `serde_json::from_str` into a `serde_json::Value` and
/// tells, with `Value::as_object`, whether the member `key` is an object.
/// Trusted to give what `json_object_member` names.
#[verifier::external_body]
pub fn json_object_at(text: &str, key: &str) -> (r: Option<bool>)
    ensures
        r == json_object_member(text@, key@),
{
    let value: serde_json::Value = match serde_json::from_str(text) {
        Ok(v) => v,
        Err(_) => return None,
    };
    Some(value[key].as_object().is_some())
}

} // verus!
