//! The on-disk form of an index: one JSON object whose keys are names and
//! whose values are arrays of note paths.
use vstd::prelude::*;

use std::collections::BTreeMap;

verus! {

broadcast use vstd::string::group_string_axioms;

/// `serde_json::Error`, carried opaquely from the codec calls below until it
/// is turned into an `IndexError`.
#[verifier::external_type_specification]
#[verifier::external_body]
pub struct ExJsonError(serde_json::Error);

/// The JSON text that `serde_json::to_string_pretty` writes for the object
/// with these keys and arrays.
pub uninterp spec fn json_text(entries: Seq<(Seq<char>, Seq<Seq<char>>)>) -> Seq<char>;

/// What `serde_json::from_str` reads from `text` as an object of string
/// arrays, keys in order; `None` where `text` is not such an object.
pub uninterp spec fn json_entries(text: Seq<char>) -> Option<Seq<(Seq<char>, Seq<Seq<char>>)>>;

/// Relies on `serde_json::to_string_pretty`, applied to the map of the
/// entries: the text depends on the entries alone, and it cannot fail, since
/// every key is a string and strings and string arrays always serialise.
#[verifier::external_body]
pub(crate) fn encode_entries(entries: &Vec<(String, Vec<String>)>) -> (r: Result<String, serde_json::Error>)
    ensures
        r is Ok,
        r matches Ok(s) ==> s@ == json_text(entries.deep_view()),
{
    let map: BTreeMap<&String, &Vec<String>> = entries.iter().map(|e| (&e.0, &e.1)).collect();
    serde_json::to_string_pretty(&map)
}

/// Relies on `serde_json::from_str` into a map from strings to string
/// arrays, read back as its entries in key order.
#[verifier::external_body]
pub(crate) fn decode_entries(text: &str) -> (r: Result<Vec<(String, Vec<String>)>, serde_json::Error>)
    ensures
        r is Ok <==> json_entries(text@) is Some,
        r matches Ok(v) ==> json_entries(text@) == Some(v.deep_view()),
{
    serde_json::from_str::<BTreeMap<String, Vec<String>>>(text).map(|m| m.into_iter().collect())
}

/// Why an index could not be written or read.
#[derive(Debug, Clone, PartialEq, Eq)]
pub enum IndexError {
    /// The stored text is not an index: not a JSON object of string arrays.
    Malformed(String),
    /// The index could not be written as JSON.
    Unencodable(String),
}

/// The text of an index error.
pub open spec fn index_message(e: IndexError) -> Seq<char> {
    match e {
        IndexError::Malformed(m) => "Malformed index: "@ + m@,
        IndexError::Unencodable(m) => "Could not encode index: "@ + m@,
    }
}

impl IndexError {
    /// The error as a sentence for the user.
    pub fn message(&self) -> (r: String)
        ensures
            r@ == index_message(*self),
    {
        match self {
            IndexError::Malformed(m) => {
                let mut s = "Malformed index: ".to_string();
                s.append(m.as_str());
                s
            },
            IndexError::Unencodable(m) => {
                let mut s = "Could not encode index: ".to_string();
                s.append(m.as_str());
                s
            },
        }
    }
}

} // verus!
