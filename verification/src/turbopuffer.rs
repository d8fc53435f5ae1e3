//! The vector store's answers: rows as they arrive, and what a failure
//! status means.

use crate::providers::{Attributes, SearchResult, VectorSearchError};
use crate::text::{contains, occurs_in};
use serde_json::Value;
use vstd::prelude::*;
use vstd::string::*;

verus! {

/// Makes `serde_json::Value` known as a type whose inside is not looked at.
#[verifier::external_type_specification]
#[verifier::external_body]
pub struct ExJsonValue(Value);

/// Makes `serde_json::Map` known as a type whose inside is not looked at.
#[verifier::external_type_specification]
#[verifier::external_body]
#[verifier::reject_recursive_types(K)]
#[verifier::reject_recursive_types(V)]
pub struct ExJsonMap<K, V>(serde_json::Map<K, V>);

/// The address under which the store answers queries.
pub const TURBOPUFFER_API_BASE: &'static str = "https://api.turbopuffer.com/v1/vectors";

/// One row of an answer, as the store sends it.
#[derive(Debug)]
pub struct QueryRow {
    /// The document's id.
    pub id: String,
    /// The raw distance or relevance, in millionths.
    pub dist: u64,
    /// The document's attributes as JSON values.
    pub attributes: serde_json::Map<String, Value>,
}

/// What a JSON object holds: its keys in the order in which
/// `serde_json::Map::iter` visits them, each with the text of its value
/// where the value is a JSON string (`serde_json::Value::as_str`).
pub uninterp spec fn json_entries(object: serde_json::Map<String, Value>) -> Seq<(Seq<char>, Option<Seq<char>>)>;

/// A list of keys with optional values as plain values.
pub open spec fn entries_view(entries: Seq<(String, Option<String>)>) -> Seq<
    (Seq<char>, Option<Seq<char>>),
> {
    Seq::new(
        entries.len(),
        |i: int|
            (
                entries[i].0@,
                match entries[i].1 {
                    Some(text) => Some(text@),
                    None => None,
                },
            ),
    )
}

/// The attributes that a list of entries stands for: every key whose value
/// is a text, with that text.
pub open spec fn text_attributes(entries: Seq<(Seq<char>, Option<Seq<char>>)>) -> Map<
    Seq<char>,
    Seq<char>,
>
    decreases entries.len(),
{
    if entries.len() == 0 {
        Map::empty()
    } else {
        let before = text_attributes(entries.drop_last());
        match entries.last().1 {
            Some(text) => before.insert(entries.last().0, text),
            None => before,
        }
    }
}

/// Walks a JSON object with `serde_json::Map::iter` and reads each value
/// with `serde_json::Value::as_str`: every key comes out once, with the text
/// of its value if the value is a JSON string and with `None` otherwise.
#[verifier::external_body]
fn object_entries(object: &serde_json::Map<String, Value>) -> (entries: Vec<(String, Option<String>)>)
    ensures
        entries_view(entries@) == json_entries(*object),
{
    object.iter().map(|(key, value)| (key.clone(), value.as_str().map(|text| text.to_string()))).collect()
}

impl SearchResult {
    /// The result that a row stands for: its id, its raw score, and those of
    /// its attributes whose value is a JSON string.
    pub fn from(row: QueryRow) -> (result: SearchResult)
        ensures
            result.id == row.id,
            result.score == row.dist,
            result.attributes@ == text_attributes(json_entries(row.attributes)),
    {
        let entries = object_entries(&row.attributes);
        let mut attributes = Attributes::new();
        let mut i: usize = 0;
        assert(entries_view(entries@).take(0) =~= Seq::<(Seq<char>, Option<Seq<char>>)>::empty());
        while i < entries.len()
            invariant
                i <= entries.len(),
                attributes@ == text_attributes(entries_view(entries@).take(i as int)),
            decreases entries.len() - i,
        {
            assert(entries_view(entries@).take(i + 1).drop_last() == entries_view(entries@).take(
                i as int,
            ));
            assert(entries_view(entries@).take(i + 1).last() == entries_view(entries@)[i as int]);
            match &entries[i].1 {
                Some(text) => {
                    attributes.insert(entries[i].0.clone(), text.clone());
                },
                None => {},
            }
            i += 1;
        }
        assert(entries_view(entries@).take(i as int) == entries_view(entries@));
        SearchResult { id: row.id, score: row.dist, attributes }
    }
}

/// Whether the store's error text says that the query text was too long.
pub open spec fn says_too_long(error: Seq<char>) -> bool {
    occurs_in("too long"@, error) && occurs_in("max 1024"@, error)
}

/// The failure that a failure status stands for. `reported` is the error
/// text of the body where the body is an error report of the store.
pub open spec fn failure_of(status: u16, body: String, reported: Option<String>) -> VectorSearchError {
    match reported {
        Some(message) if says_too_long(message@) => VectorSearchError::QueryTooLong { message },
        _ => VectorSearchError::Api { status, body },
    }
}

/// Tells what went wrong when the store answered with a failure status.
///
/// Where the body is an error report whose text holds both `too long` and
/// `max 1024`, the query text was too long, and the failure carries that
/// text. Every other failure carries the status and the body.
pub fn classify_failure(status: u16, body: String, reported: Option<String>) -> (failure:
    VectorSearchError)
    ensures
        failure == failure_of(status, body, reported),
{
    match reported {
        Some(message) => {
            if contains(message.as_str(), "too long") && contains(message.as_str(), "max 1024") {
                VectorSearchError::QueryTooLong { message }
            } else {
                VectorSearchError::Api { status, body }
            }
        },
        None => VectorSearchError::Api { status, body },
    }
}

/// The address of a namespace's query endpoint.
pub open spec fn query_url_of(namespace: Seq<char>) -> Seq<char> {
    TURBOPUFFER_API_BASE@ + "/"@ + namespace + "/query"@
}

/// The address to which queries against `namespace` are sent.
pub fn query_url(namespace: &str) -> (url: String)
    ensures
        url@ == query_url_of(namespace@),
{
    let mut url = TURBOPUFFER_API_BASE.to_owned();
    url.append("/");
    url.append(namespace);
    url.append("/query");
    url
}

} // verus!
