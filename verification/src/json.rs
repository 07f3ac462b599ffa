//! The document of a table as JSON text, written and read by `serde_json`.
//!
//! A document is an array of pairs; each pair holds an encoded context and an
//! object that maps every token seen after it to its count.

use std::collections::BTreeMap;
use vstd::prelude::*;

verus! {

/// The error of `serde_json`.
#[verifier::external_type_specification]
#[verifier::external_body]
pub struct ExJsonError(serde_json::Error);

/// The text that `serde_json::to_string` gives for the document with the
/// records `records`, the tokens of each record as the keys of an ordered map.
pub uninterp spec fn json_text(records: Seq<(Seq<char>, Seq<(Seq<char>, u32)>)>) -> Seq<char>;

/// The records that `serde_json::from_str` reads from `text` as a document,
/// the tokens of each record in the order of an ordered map; `None` where it
/// reports an error.
pub uninterp spec fn json_records(text: Seq<char>) -> Option<
    Seq<(Seq<char>, Seq<(Seq<char>, u32)>)>,
>;

/// No two pairs of `pairs` hold the same token.
pub open spec fn distinct_tokens(pairs: Seq<(Seq<char>, u32)>) -> bool {
    forall|j: int, k: int|
        0 <= j < k < pairs.len() ==> (#[trigger] pairs[j]).0 != (#[trigger] pairs[k]).0
}

/// Writes `records` as JSON text.
///
/// Calls `serde_json::to_string` on the records, each with its pairs as a
/// `BTreeMap`. Not proved: that a text comes back, since strings, 32-bit
/// counts, sequences, pairs and maps with string keys are written into memory
/// without an error path, and that the text depends on nothing but the
/// records.
#[verifier::external_body]
pub(crate) fn to_json(records: &Vec<(String, Vec<(String, u32)>)>) -> (r: Result<
    String,
    serde_json::Error,
>)
    requires
        forall|i: int| 0 <= i < records.len() ==> distinct_tokens(#[trigger] records.deep_view()[i].1),
    ensures
        r is Ok,
        r matches Ok(text) ==> text@ == json_text(records.deep_view()),
{
    let document: Vec<(&String, BTreeMap<&String, u32>)> = records.iter().map(
        |(key, pairs)| (key, pairs.iter().map(|(token, count)| (token, *count)).collect()),
    ).collect();
    serde_json::to_string(&document)
}

/// Reads the records of a document from JSON text.
///
/// Calls `serde_json::from_str` for an array of pairs of a string and a
/// `BTreeMap` from strings to 32-bit counts. Not proved: that the outcome, the
/// records or an error, depends on nothing but the text.
#[verifier::external_body]
pub(crate) fn from_json(text: &str) -> (r: Result<Vec<(String, Vec<(String, u32)>)>, serde_json::Error>)
    ensures
        match r {
            Ok(records) => json_records(text@) == Some(records.deep_view()),
            Err(_) => json_records(text@) is None,
        },
{
    let document: Vec<(String, BTreeMap<String, u32>)> = serde_json::from_str(text)?;
    Ok(document.into_iter().map(|(key, pairs)| (key, pairs.into_iter().collect())).collect())
}

} // verus!
