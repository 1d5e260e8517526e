//! JSON texts, read one level at a time.
//!
//! A list or an object is read into the texts of its parts, so a caller walks
//! a document by reading part after part.
use crate::chars::{same_str, strs};
use vstd::prelude::*;

verus! {

/// What `serde_json` reads as a JSON array of a text: the compact JSON text
/// of each element.
pub uninterp spec fn json_list(text: Seq<char>) -> Option<Seq<Seq<char>>>;

/// What `serde_json` reads as a JSON object of a text: each key, once, with
/// the compact JSON text of its value.
pub uninterp spec fn json_fields(text: Seq<char>) -> Option<Seq<(Seq<char>, Seq<char>)>>;

/// What `serde_json` reads as a JSON string of a text.
pub uninterp spec fn json_string(text: Seq<char>) -> Option<Seq<char>>;

/// What `serde_json` reads as a JSON array of strings of a text.
pub uninterp spec fn json_strings(text: Seq<char>) -> Option<Seq<Seq<char>>>;

/// What `serde_json` reads as a JSON array of unsigned 32-bit numbers of a
/// text.
pub uninterp spec fn json_numbers(text: Seq<char>) -> Option<Seq<u32>>;

/// What `serde_json` reads as an unsigned 64-bit number of a text.
pub uninterp spec fn json_number(text: Seq<char>) -> Option<u64>;

/// Whether `serde_json` reads a text as JSON at all.
pub uninterp spec fn json_valid(text: Seq<char>) -> bool;

pub open spec fn fields_v(f: Seq<(String, String)>) -> Seq<(Seq<char>, Seq<char>)> {
    f.map_values(|p: (String, String)| (p.0@, p.1@))
}

/// `serde_json::from_str` read as an array of values, each written back with
/// `Value::to_string`. The result is that of the text alone.
#[verifier::external_body]
pub(crate) fn read_list(text: &str) -> (r: Option<Vec<String>>)
    ensures
        json_list(text@) == (match r {
            Some(v) => Some(strs(v@)),
            None => None,
        }),
{
    let values: Vec<serde_json::Value> = serde_json::from_str(text).ok()?;
    Some(values.iter().map(|v| v.to_string()).collect())
}

/// `serde_json::from_str` read as an object, each value written back with
/// `Value::to_string`. The result is that of the text alone.
#[verifier::external_body]
pub(crate) fn read_fields(text: &str) -> (r: Option<Vec<(String, String)>>)
    ensures
        json_fields(text@) == (match r {
            Some(v) => Some(fields_v(v@)),
            None => None,
        }),
{
    let map: serde_json::Map<String, serde_json::Value> = serde_json::from_str(text).ok()?;
    Some(map.iter().map(|(k, v)| (k.clone(), v.to_string())).collect())
}

/// `serde_json::from_str` read as a string. The result is that of the text
/// alone.
#[verifier::external_body]
pub(crate) fn read_string(text: &str) -> (r: Option<String>)
    ensures
        json_string(text@) == (match r {
            Some(s) => Some(s@),
            None => None,
        }),
{
    serde_json::from_str(text).ok()
}

/// `serde_json::from_str` read as an array of strings. The result is that of
/// the text alone.
#[verifier::external_body]
pub(crate) fn read_strings(text: &str) -> (r: Option<Vec<String>>)
    ensures
        json_strings(text@) == (match r {
            Some(v) => Some(strs(v@)),
            None => None,
        }),
{
    serde_json::from_str(text).ok()
}

/// `serde_json::from_str` read as an array of unsigned 32-bit numbers. The
/// result is that of the text alone.
#[verifier::external_body]
pub(crate) fn read_numbers(text: &str) -> (r: Option<Vec<u32>>)
    ensures
        json_numbers(text@) == (match r {
            Some(v) => Some(v@),
            None => None,
        }),
{
    serde_json::from_str(text).ok()
}

/// `serde_json::from_str` read as an unsigned 64-bit number. The result is
/// that of the text alone.
#[verifier::external_body]
pub(crate) fn read_number(text: &str) -> (r: Option<u64>)
    ensures
        r == json_number(text@),
{
    serde_json::from_str(text).ok()
}

/// `serde_json::from_str` read as any value. Whether that succeeds is up to
/// the text alone.
#[verifier::external_body]
pub(crate) fn is_json(text: &str) -> (r: bool)
    ensures
        r == json_valid(text@),
{
    serde_json::from_str::<serde_json::Value>(text).is_ok()
}

/// The value text of the first field with a key.
pub open spec fn field(f: Seq<(Seq<char>, Seq<char>)>, key: Seq<char>) -> Option<Seq<char>>
    decreases f.len(),
{
    if f.len() == 0 {
        None
    } else if f[0].0 == key {
        Some(f[0].1)
    } else {
        field(f.skip(1), key)
    }
}

/// The value text of the first field with a key.
pub fn find_field<'a>(f: &'a Vec<(String, String)>, key: &str) -> (r: Option<&'a String>)
    ensures
        field(fields_v(f@), key@) == (match r {
            Some(s) => Some(s@),
            None => None,
        }),
{
    let mut i: usize = 0;
    let ghost all = fields_v(f@);
    assert(all.skip(0) =~= all);
    while i < f.len()
        invariant
            i <= f@.len(),
            all == fields_v(f@),
            field(all, key@) == field(all.skip(i as int), key@),
        decreases f@.len() - i,
    {
        assert(all.skip(i as int)[0] == (f@[i as int].0@, f@[i as int].1@));
        assert(all.skip(i as int).skip(1) =~= all.skip(i + 1));
        if same_str(f[i].0.as_str(), key) {
            return Some(&f[i].1);
        }
        i += 1;
    }
    None
}

/// The string that a field of an object holds.
pub open spec fn string_field(f: Seq<(Seq<char>, Seq<char>)>, key: Seq<char>) -> Option<Seq<char>> {
    match field(f, key) {
        Some(t) => json_string(t),
        None => None,
    }
}

pub fn find_string(f: &Vec<(String, String)>, key: &str) -> (r: Option<String>)
    ensures
        string_field(fields_v(f@), key@) == (match r {
            Some(s) => Some(s@),
            None => None,
        }),
{
    match find_field(f, key) {
        Some(t) => read_string(t.as_str()),
        None => None,
    }
}

} // verus!
