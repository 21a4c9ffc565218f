//! The JSON catalogs are parsed and walked with `serde_json`. This module
//! holds the trusted boundary with that crate: the `Value` type, a name for
//! the string leaves a value holds, and one wrapper per function called.

use vstd::prelude::*;

verus! {

/// `serde_json::Value`, carried through the library as an opaque value.
#[verifier::external_type_specification]
#[verifier::external_body]
pub struct ExJsonValue(serde_json::Value);

/// The string leaves of a JSON value, keyed by the path of object member
/// names that reaches each of them from the root: a string is the single
/// leaf at the empty path, an object holds the leaves of each member under
/// that member's name, and every other kind of value holds none.
pub uninterp spec fn json_strings(v: serde_json::Value) -> Map<Seq<Seq<char>>, Seq<char>>;

/// What `serde_json::from_str::<Value>` makes of a text: the string leaves of
/// the parsed value, or, when the text is not a JSON document, the message of
/// the error (its `Display` text, which names the fault and its line and
/// column).
pub uninterp spec fn json_text_strings(text: Seq<char>) -> Result<Map<Seq<Seq<char>>, Seq<char>>, Seq<char>>;

/// The leaves of `m` found below the member `key`, with `key` taken off the
/// front of their paths.
pub open spec fn under(m: Map<Seq<Seq<char>>, Seq<char>>, key: Seq<char>) -> Map<Seq<Seq<char>>, Seq<char>> {
    Map::new(|p: Seq<Seq<char>>| m.contains_key(seq![key] + p), |p: Seq<Seq<char>>| m[seq![key] + p])
}

/// `serde_json::from_str::<serde_json::Value>(text)`, its error turned into
/// text with `to_string`. Claimed: the outcome is a function of the text
/// alone; on success the parsed value holds the string leaves that the text
/// names, and on failure the message is the one named for the text. Its
/// wording is left unstated.
#[verifier::external_body]
pub(crate) fn json_from_str(text: &str) -> (r: Result<serde_json::Value, String>)
    ensures
        match r {
            Ok(v) => json_text_strings(text@) == Ok::<Map<Seq<Seq<char>>, Seq<char>>, Seq<char>>(json_strings(v)),
            Err(e) => json_text_strings(text@) == Err::<Map<Seq<Seq<char>>, Seq<char>>, Seq<char>>(e@),
        },
{
    serde_json::from_str::<serde_json::Value>(text).map_err(|e| e.to_string())
}

/// `serde_json::Value::get` with a `&str` index. Claimed, as its source
/// shows: on an object holding the member `key` it returns that member,
/// whose leaves are the object's leaves below `key`; on any other value, or
/// an object without that member, it returns `None`, and then no leaf of
/// `v` lies below `key`.
#[verifier::external_body]
pub(crate) fn json_member<'a>(v: &'a serde_json::Value, key: &str) -> (r: Option<&'a serde_json::Value>)
    ensures
        match r {
            Some(c) => json_strings(*c) == under(json_strings(*v), key@),
            None => forall|p: Seq<Seq<char>>| !json_strings(*v).contains_key(#[trigger] (seq![key@] + p)),
        },
{
    v.get(key)
}

/// `serde_json::Value::as_str`. Claimed, as its source shows: it returns the
/// text of a JSON string, which is the leaf at the empty path, and `None`
/// for any other value, which has no leaf there.
#[verifier::external_body]
pub(crate) fn json_as_str<'a>(v: &'a serde_json::Value) -> (r: Option<&'a str>)
    ensures
        match r {
            Some(s) => json_strings(*v).contains_key(Seq::empty()) && json_strings(*v)[Seq::empty()] == s@,
            None => !json_strings(*v).contains_key(Seq::empty()),
        },
{
    v.as_str()
}

} // verus!
