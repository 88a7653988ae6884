//! The JSON layer: serde_json splits a document into raw pieces of text and
//! reads integers.  What it returns is named here; the profile's own
//! schema is checked by the decoder on top of these pieces.
use crate::encode::{dec, int_text};
use vstd::prelude::*;

verus! {

/// The members of a JSON object, as (key, raw value text) pairs, or `None`
/// when the text is not one object.
pub uninterp spec fn json_object(text: Seq<char>) -> Option<Seq<(Seq<char>, Seq<char>)>>;

/// The elements of a JSON array, each as raw text, or `None` when the text
/// is not one array.
pub uninterp spec fn json_array(text: Seq<char>) -> Option<Seq<Seq<char>>>;

/// The JSON integer in the text, when it is one that fits in `u64`.
pub uninterp spec fn json_u64(text: Seq<char>) -> Option<u64>;

/// The JSON integer in the text, when it is one that fits in `i64`.
pub uninterp spec fn json_i64(text: Seq<char>) -> Option<i64>;

/// The view of a list of (key, value) strings.
pub open spec fn entries_view(v: Seq<(String, String)>) -> Seq<(Seq<char>, Seq<char>)> {
    v.map_values(|e: (String, String)| (e.0@, e.1@))
}

/// The view of a list of strings.
pub open spec fn strings_view(v: Seq<String>) -> Seq<Seq<char>> {
    v.map_values(|s: String| s@)
}

/// Relies on serde_json::from_str into a `BTreeMap<String, &RawValue>`: an
/// object's members with their raw text; a map holds each key once.
#[verifier::external_body]
pub(crate) fn object_entries(text: &str) -> (r: Option<Vec<(String, String)>>)
    ensures
        match r {
            Some(v) => json_object(text@) == Some(entries_view(v@))
                && forall|i: int, j: int| 0 <= i < j < v@.len() ==> v@[i].0@ != v@[j].0@,
            None => json_object(text@) is None,
        },
{
    match serde_json::from_str::<std::collections::BTreeMap<String, &serde_json::value::RawValue>>(text) {
        Ok(m) => Some(m.into_iter().map(|(k, v)| (k, v.get().to_string())).collect()),
        Err(_) => None,
    }
}

/// Relies on serde_json::from_str into a `Vec<&RawValue>`: an array's
/// elements with their raw text.
#[verifier::external_body]
pub(crate) fn array_items(text: &str) -> (r: Option<Vec<String>>)
    ensures
        match r {
            Some(v) => json_array(text@) == Some(strings_view(v@)),
            None => json_array(text@) is None,
        },
{
    match serde_json::from_str::<Vec<&serde_json::value::RawValue>>(text) {
        Ok(items) => Some(items.into_iter().map(|v| v.get().to_string()).collect()),
        Err(_) => None,
    }
}

/// Relies on serde_json::from_str into a `u64`: plain decimal digits of a
/// value in range read as that value.
#[verifier::external_body]
pub(crate) fn parse_u64(text: &str) -> (r: Option<u64>)
    ensures
        r == json_u64(text@),
        forall|x: u64| text@ == dec(x as nat) ==> r == Some(x),
{
    serde_json::from_str::<u64>(text).ok()
}

/// Relies on serde_json::from_str into an `i64`: decimal digits, with a
/// leading minus sign when negative, of a value in range read as that value.
#[verifier::external_body]
pub(crate) fn parse_i64(text: &str) -> (r: Option<i64>)
    ensures
        r == json_i64(text@),
        forall|x: i64| text@ == int_text(x as int) && x > i64::MIN ==> r == Some(x),
{
    serde_json::from_str::<i64>(text).ok()
}

} // verus!
