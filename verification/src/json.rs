//! The calls into `serde_json`.
//!
//! Nothing in this file is proved: Verus takes the contracts below on
//! trust. The two calls that write and read JSON text are functions of
//! their argument alone, so each result has a name that the contracts of
//! the rest of the crate speak of; beside the name each contract states one
//! fact that the source of `serde_json` plainly gives. The map of
//! `serde_json` gathers the bindings of a frame; what it holds has a name,
//! and the contracts of its methods speak of that name.

use crate::schema::inserted;
use vstd::prelude::*;

verus! {

/// `serde_json::Error`, of which nothing is known here but that it is a
/// failure to read.
#[verifier::external_type_specification]
#[verifier::external_body]
pub struct ExJsonError(serde_json::Error);

/// The JSON string token that `serde_json` writes for the text `s`: the text
/// between double quotes, with the escapes that JSON asks for.
pub uninterp spec fn json_quoted(s: Seq<char>) -> Seq<char>;

/// A text that is written into a JSON string as it is: it holds no double
/// quote, no backslash and no character below U+0020.
pub open spec fn is_plain(s: Seq<char>) -> bool {
    forall|i: int| 0 <= i < s.len() ==> (#[trigger] s[i]) != '"' && s[i] != '\\' && s[i] >= ' '
}

/// `s` between double quotes.
pub open spec fn quoted(s: Seq<char>) -> Seq<char> {
    seq!['"'] + s + seq!['"']
}

/// The compact JSON text that `serde_json` writes for the object that it
/// reads from `text`, or `None` where it reads no object from `text`.
pub uninterp spec fn json_object_text(text: Seq<char>) -> Option<Seq<char>>;

/// Calls the `Display` impl of `serde_json::Value` on `Value::String(s)`.
/// The contract names the token that comes back, and says what the token
/// of a plain text is: `serde_json` writes a double quote, then the text,
/// in which it escapes only the double quote, the backslash and the
/// characters below U+0020, then a double quote.
#[verifier::external_body]
pub(crate) fn json_quote(s: &str) -> (r: String)
    ensures
        r@ == json_quoted(s@),
        is_plain(s@) ==> r@ == quoted(s@),
{
    serde_json::Value::String(s.to_owned()).to_string()
}

/// Calls `serde_json::from_str` for a `Map<String, Value>` and, where that
/// succeeds, the `Display` impl of `serde_json::Value` on the object read.
/// The contract names what comes back, says that an error comes back
/// exactly where the name is `None`, and that one comes back for the empty
/// text, in which `serde_json` finds the end where a value should start.
#[verifier::external_body]
pub(crate) fn parse_object_text(s: &str) -> (r: Result<String, serde_json::Error>)
    ensures
        match r {
            Ok(t) => json_object_text(s@) == Some(t@),
            Err(_) => json_object_text(s@) is None,
        },
        s@.len() == 0 ==> r is Err,
{
    match serde_json::from_str::<serde_json::Map<String, serde_json::Value>>(s) {
        Ok(m) => Ok(serde_json::Value::Object(m).to_string()),
        Err(e) => Err(e),
    }
}

/// `serde_json::Map`, the map from keys to JSON values.
#[verifier::external_type_specification]
#[verifier::external_body]
#[verifier::reject_recursive_types(K)]
#[verifier::reject_recursive_types(V)]
pub struct ExJsonMap<K, V>(serde_json::Map<K, V>);

/// `serde_json::Value`, a JSON value.
#[verifier::external_type_specification]
#[verifier::external_body]
pub struct ExJsonValue(serde_json::Value);

/// What a map holds, in the order in which it walks its keys: each key with
/// the unsigned number that is bound to it, or `None` where something else
/// is bound to it.
pub uninterp spec fn map_walk(m: serde_json::Map<String, serde_json::Value>) -> Seq<
    (Seq<char>, Option<u64>),
>;

/// The keys and numbers that a vector of pairs holds.
pub open spec fn walk_views(items: Seq<(String, Option<u64>)>) -> Seq<(Seq<char>, Option<u64>)> {
    Seq::new(items.len(), |i: int| (items[i].0@, items[i].1))
}

/// Calls `serde_json::Map::new`: the new map holds nothing.
#[verifier::external_body]
pub(crate) fn json_map_new() -> (m: serde_json::Map<String, serde_json::Value>)
    ensures
        map_walk(m) == Seq::<(Seq<char>, Option<u64>)>::empty(),
{
    serde_json::Map::new()
}

/// Calls `serde_json::Map::insert` with the number as a JSON value. The map
/// keeps its keys in the order of strings, each key once: a key that is
/// there gets the new number at its place, a new key takes its place in
/// the order. That order is the order of keys of this library.
#[verifier::external_body]
pub(crate) fn json_map_insert(
    m: &mut serde_json::Map<String, serde_json::Value>,
    key: String,
    number: u64,
)
    ensures
        map_walk(*final(m)) == inserted(map_walk(*old(m)), key@, Some(number)),
{
    m.insert(key, serde_json::Value::from(number));
}

/// Calls `serde_json::Map::iter` and hands out each key with what
/// `serde_json::Value::as_u64` gives for its value, in the order of the
/// walk.
#[verifier::external_body]
pub(crate) fn json_map_items(m: &serde_json::Map<String, serde_json::Value>) -> (items: Vec<
    (String, Option<u64>),
>)
    ensures
        walk_views(items@) == map_walk(*m),
{
    m.iter().map(|(key, value)| (key.clone(), value.as_u64())).collect()
}

} // verus!
