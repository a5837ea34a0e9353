//! Decoding of an exchange's symbol listing into the feed of pairs.
//!
//! The listing is a JSON document: an object whose member `symbols` is a
//! list of objects, each of which names a base asset and a quote asset.
//! Reading JSON is left to `serde_json`; what is done with the document it
//! hands back is decided here.

use crate::graph::pair_names;
use crate::order::Name;
use vstd::prelude::*;

verus! {

/// `serde_json::Value`, a JSON value as `serde_json` holds it. Nothing is
/// known of what is inside but through [`json_of`].
#[verifier::external_type_specification]
#[verifier::external_body]
pub struct ExValue(serde_json::Value);

/// `serde_json::Error`, the reason why `serde_json` did not read a text.
/// Nothing is known of what is inside.
#[verifier::external_type_specification]
#[verifier::external_body]
pub struct ExError(serde_json::Error);

/// What a JSON value holds. Of a number only that it is one.
pub enum Json {
    Null,
    Bool(bool),
    Number,
    Text(Seq<char>),
    List(Seq<Json>),
    Object(Map<Seq<char>, Json>),
}

/// What a `serde_json::Value` holds.
pub uninterp spec fn json_of(value: serde_json::Value) -> Json;

/// What `serde_json` reads from a text: the value that the text denotes, or
/// nothing if the text is no JSON document.
pub uninterp spec fn parsed(text: Seq<char>) -> Option<Json>;

/// Calls `serde_json::from_str` for a `Value`. It yields a value that holds
/// what the text denotes, or fails where the text denotes nothing.
#[verifier::external_body]
fn parse_document(text: &str) -> (r: Result<serde_json::Value, serde_json::Error>)
    ensures
        match r {
            Ok(doc) => parsed(text@) == Some(json_of(doc)),
            Err(_) => parsed(text@) is None,
        },
{
    serde_json::from_str::<serde_json::Value>(text)
}

/// Calls `Value::get` with a string key. It yields the member of that name
/// of an object, and nothing for a value that is no object or has no such
/// member.
#[verifier::external_body]
fn member<'a>(value: &'a serde_json::Value, key: &str) -> (r: Option<&'a serde_json::Value>)
    ensures
        match r {
            Some(found) => member_of(json_of(*value), key@) == Some(json_of(*found)),
            None => member_of(json_of(*value), key@) is None,
        },
{
    value.get(key)
}

/// Calls `Value::as_array`. It yields the elements of a list, and nothing for
/// a value that is no list.
#[verifier::external_body]
fn elements<'a>(value: &'a serde_json::Value) -> (r: Option<&'a Vec<serde_json::Value>>)
    ensures
        match r {
            Some(items) => items_of(json_of(*value)) == Some(jsons_of(items@)),
            None => items_of(json_of(*value)) is None,
        },
{
    value.as_array()
}

/// Calls `Value::as_str`. It yields the characters of a string, and nothing
/// for a value that is no string.
#[verifier::external_body]
fn as_text<'a>(value: &'a serde_json::Value) -> (r: Option<&'a str>)
    ensures
        match r {
            Some(s) => text_of(json_of(*value)) == Some(s@),
            None => text_of(json_of(*value)) is None,
        },
{
    value.as_str()
}

/// What each of a list of values holds.
pub open spec fn jsons_of(values: Seq<serde_json::Value>) -> Seq<Json> {
    Seq::new(values.len(), |i: int| json_of(values[i]))
}

/// The member `key` of an object; nothing for another value or another key.
pub open spec fn member_of(value: Json, key: Seq<char>) -> Option<Json> {
    match value {
        Json::Object(members) => if members.dom().contains(key) {
            Some(members[key])
        } else {
            None
        },
        _ => None,
    }
}

/// The elements of a list; nothing for another value.
pub open spec fn items_of(value: Json) -> Option<Seq<Json>> {
    match value {
        Json::List(items) => Some(items),
        _ => None,
    }
}

/// The characters of a string; nothing for another value.
pub open spec fn text_of(value: Json) -> Option<Seq<char>> {
    match value {
        Json::Text(s) => Some(s),
        _ => None,
    }
}

/// The string that is the member `key` of an entry, if it has one.
pub open spec fn field_of(entry: Json, key: Seq<char>) -> Option<Name> {
    match member_of(entry, key) {
        Some(value) => text_of(value),
        None => None,
    }
}

/// The pair that an entry of the listing names: its base asset and its quote asset.
pub open spec fn pair_of(entry: Json) -> Option<(Name, Name)> {
    match (field_of(entry, "baseAsset"@), field_of(entry, "quoteAsset"@)) {
        (Some(base), Some(quote)) => Some((base, quote)),
        _ => None,
    }
}

/// The entries of a listing: the elements of its member `symbols`.
pub open spec fn entries_of(doc: Json) -> Option<Seq<Json>> {
    match member_of(doc, "symbols"@) {
        Some(list) => items_of(list),
        None => None,
    }
}

/// Why a text gives no feed of pairs.
#[derive(Debug, Clone, Copy, PartialEq, Eq)]
pub enum FeedError {
    /// The text is no JSON document.
    Syntax,
    /// The document is no object with a list `symbols`.
    NoSymbols,
    /// The entry at this position of the list does not name two assets.
    BadEntry(usize),
}

/// `r` is what the listing `doc` decodes to: the pairs of its entries, in
/// order, or the reason why there are none, which for an entry is the
/// position of the first one that names no pair.
pub open spec fn decodes_to(doc: Json, r: Result<Vec<(String, String)>, FeedError>) -> bool {
    match r {
        Ok(pairs) => {
            &&& entries_of(doc) is Some
            &&& pairs.len() == entries_of(doc)->0.len()
            &&& forall|i: int|
                0 <= i < pairs.len() ==> pair_of(#[trigger] entries_of(doc)->0[i]) == Some(
                    pair_names(pairs@)[i],
                )
        },
        Err(FeedError::NoSymbols) => entries_of(doc) is None,
        Err(FeedError::BadEntry(at)) => {
            &&& entries_of(doc) is Some
            &&& at < entries_of(doc)->0.len()
            &&& pair_of(entries_of(doc)->0[at as int]) is None
            &&& forall|i: int| 0 <= i < at ==> pair_of(#[trigger] entries_of(doc)->0[i]) is Some
        },
        Err(FeedError::Syntax) => false,
    }
}

/// The string that is the member `key` of `entry`, if it has one.
fn field(entry: &serde_json::Value, key: &str) -> (r: Option<String>)
    ensures
        match r {
            Some(s) => field_of(json_of(*entry), key@) == Some(s@),
            None => field_of(json_of(*entry), key@) is None,
        },
{
    match member(entry, key) {
        Some(value) => match as_text(value) {
            Some(s) => Some(s.to_owned()),
            None => None,
        },
        None => None,
    }
}

/// Decodes a listing that was read: the pairs of its entries, in order.
pub fn pairs_of(doc: &serde_json::Value) -> (r: Result<Vec<(String, String)>, FeedError>)
    ensures
        decodes_to(json_of(*doc), r),
{
    let list = match member(doc, "symbols") {
        Some(list) => list,
        None => {
            return Err(FeedError::NoSymbols);
        },
    };
    let entries = match elements(list) {
        Some(entries) => entries,
        None => {
            return Err(FeedError::NoSymbols);
        },
    };
    let ghost all = entries_of(json_of(*doc))->0;
    let mut pairs: Vec<(String, String)> = Vec::new();
    let mut i: usize = 0;
    while i < entries.len()
        invariant
            entries_of(json_of(*doc)) == Some(all),
            all == jsons_of(entries@),
            i <= entries.len(),
            pairs.len() == i,
            forall|k: int| 0 <= k < i ==> pair_of(#[trigger] all[k]) == Some(pair_names(pairs@)[k]),
        decreases entries.len() - i,
    {
        let base = field(&entries[i], "baseAsset");
        let quote = field(&entries[i], "quoteAsset");
        match (base, quote) {
            (Some(base), Some(quote)) => {
                let ghost before = pair_names(pairs@);
                pairs.push((base, quote));
                assert forall|k: int| 0 <= k <= i implies pair_of(#[trigger] all[k]) == Some(
                    pair_names(pairs@)[k],
                ) by {
                    if k < i {
                        assert(pair_names(pairs@)[k] == before[k]);
                    }
                }
            },
            _ => {
                return Err(FeedError::BadEntry(i));
            },
        }
        i += 1;
    }
    Ok(pairs)
}

/// Decodes the text of a listing into the feed of pairs.
pub fn decode_pairs(body: &str) -> (r: Result<Vec<(String, String)>, FeedError>)
    ensures
        match parsed(body@) {
            Some(doc) => decodes_to(doc, r),
            None => r == Err::<Vec<(String, String)>, FeedError>(FeedError::Syntax),
        },
{
    match parse_document(body) {
        Ok(doc) => pairs_of(&doc),
        Err(_) => Err(FeedError::Syntax),
    }
}

} // verus!
