//! What the two backends hand to a search: results and failures.
//!
//! The embedding provider turns a text into a vector; the vector store
//! answers a nearest-neighbour query and a lexical query. Both are reached
//! over the network by the caller. This module holds the plain values that
//! cross that boundary.

use crate::text::{concatenate, decimal, push_decimal};
use vstd::prelude::*;
use vstd::string::*;

verus! {

/// Why an embedding could not be had.
#[derive(Debug)]
pub enum EmbeddingError {
    /// The request could not be sent; the text says why.
    Request(String),
    /// The provider answered with a failure status.
    Api { status: u16, body: String },
    /// The provider answered without an embedding.
    EmptyResponse,
    /// Anything else, described by its text.
    Other(String),
}

/// Why a query to the vector store failed.
#[derive(Debug)]
pub enum VectorSearchError {
    /// The request could not be sent; the text says why.
    Request(String),
    /// The store answered with a failure status.
    Api { status: u16, body: String },
    /// The store rejected the query text as too long. The caller can mend
    /// this by sending a shorter text.
    QueryTooLong { message: String },
    /// The answer could not be read.
    Parse(String),
    /// Anything else, described by its text.
    Other(String),
}

/// The value that a list of pairs holds for a key: that of the first pair
/// with the key.
pub open spec fn lookup(pairs: Seq<(Seq<char>, Seq<char>)>, key: Seq<char>) -> Option<Seq<char>>
    decreases pairs.len(),
{
    if pairs.len() == 0 {
        None
    } else if pairs.first().0 == key {
        Some(pairs.first().1)
    } else {
        lookup(pairs.drop_first(), key)
    }
}

/// A list of pairs of strings as plain values.
pub open spec fn pairs_view(pairs: Seq<(String, String)>) -> Seq<(Seq<char>, Seq<char>)> {
    Seq::new(pairs.len(), |i: int| (pairs[i].0@, pairs[i].1@))
}

/// The attributes of a document: a map from keys to values, both texts.
#[derive(Debug, Clone)]
pub struct Attributes {
    pairs: Vec<(String, String)>,
}

impl View for Attributes {
    type V = Map<Seq<char>, Seq<char>>;

    open spec fn view(&self) -> Map<Seq<char>, Seq<char>> {
        Map::new(
            |key: Seq<char>| lookup(self.entries(), key) is Some,
            |key: Seq<char>| lookup(self.entries(), key).unwrap(),
        )
    }
}

/// Setting the value of a pair changes what the list holds for the pair's
/// key and for no other key.
proof fn lemma_lookup_update(
    pairs: Seq<(Seq<char>, Seq<char>)>,
    at: int,
    value: Seq<char>,
    key: Seq<char>,
)
    requires
        0 <= at < pairs.len(),
        forall|j: int| 0 <= j < at ==> (#[trigger] pairs[j]).0 != pairs[at].0,
    ensures
        lookup(pairs.update(at, (pairs[at].0, value)), key) == if key == pairs[at].0 {
            Some(value)
        } else {
            lookup(pairs, key)
        },
    decreases pairs.len(),
{
    let changed = pairs.update(at, (pairs[at].0, value));
    if at == 0 {
        assert(changed.drop_first() =~= pairs.drop_first());
    } else {
        let rest = pairs.drop_first();
        assert(changed.drop_first() =~= rest.update(at - 1, (rest[at - 1].0, value)));
        assert(pairs[0].0 != pairs[at].0);
        assert forall|j: int| 0 <= j < at - 1 implies (#[trigger] rest[j]).0 != rest[at - 1].0 by {
            assert(rest[j] == pairs[j + 1]);
        }
        lemma_lookup_update(rest, at - 1, value, key);
    }
}

/// A pair added behind a list whose keys differ from its key gives the key
/// its value and changes nothing else.
proof fn lemma_lookup_push(
    pairs: Seq<(Seq<char>, Seq<char>)>,
    added: (Seq<char>, Seq<char>),
    key: Seq<char>,
)
    requires
        forall|j: int| 0 <= j < pairs.len() ==> (#[trigger] pairs[j]).0 != added.0,
    ensures
        lookup(pairs.push(added), key) == if key == added.0 {
            Some(added.1)
        } else {
            lookup(pairs, key)
        },
    decreases pairs.len(),
{
    let longer = pairs.push(added);
    if pairs.len() == 0 {
        assert(longer.drop_first() =~= Seq::<(Seq<char>, Seq<char>)>::empty());
    } else {
        let rest = pairs.drop_first();
        assert(longer.drop_first() =~= rest.push(added));
        assert(pairs[0].0 != added.0);
        assert forall|j: int| 0 <= j < rest.len() implies (#[trigger] rest[j]).0 != added.0 by {
            assert(rest[j] == pairs[j + 1]);
        }
        lemma_lookup_push(rest, added, key);
    }
}

impl Attributes {
    /// The pairs of key and value in the order in which the keys were first
    /// set.
    pub closed spec fn entries(&self) -> Seq<(Seq<char>, Seq<char>)> {
        pairs_view(self.pairs@)
    }

    /// No attributes.
    pub fn new() -> (attributes: Attributes)
        ensures
            attributes@ == Map::<Seq<char>, Seq<char>>::empty(),
            attributes.entries() == Seq::<(Seq<char>, Seq<char>)>::empty(),
    {
        let attributes = Attributes { pairs: Vec::new() };
        assert(attributes.entries() =~= Seq::<(Seq<char>, Seq<char>)>::empty());
        assert(attributes@ =~= Map::<Seq<char>, Seq<char>>::empty());
        attributes
    }

    /// The position of the first pair with the key, if there is one.
    fn position(&self, key: &str) -> (at: Option<usize>)
        ensures
            match at {
                Some(i) => i < self.entries().len() && self.entries()[i as int].0 == key@
                    && lookup(self.entries(), key@) == Some(self.entries()[i as int].1)
                    && forall|j: int| 0 <= j < i ==> (#[trigger] self.entries()[j]).0 != key@,
                None => lookup(self.entries(), key@) is None && forall|j: int|
                    0 <= j < self.entries().len() ==> (#[trigger] self.entries()[j]).0 != key@,
            },
    {
        let mut i: usize = 0;
        assert(self.entries().skip(0) == self.entries());
        while i < self.pairs.len()
            invariant
                i <= self.pairs.len(),
                forall|j: int| 0 <= j < i ==> (#[trigger] self.entries()[j]).0 != key@,
                lookup(self.entries(), key@) == lookup(self.entries().skip(i as int), key@),
            decreases self.pairs.len() - i,
        {
            assert(self.entries().skip(i as int).first() == self.entries()[i as int]);
            assert(self.entries().skip(i as int).drop_first() == self.entries().skip(i + 1));
            if crate::text::str_eq(self.pairs[i].0.as_str(), key) {
                return Some(i);
            }
            i += 1;
        }
        assert(self.entries().skip(i as int).len() == 0);
        None
    }

    /// The value of a key, if the attributes hold it.
    pub fn get(&self, key: &str) -> (value: Option<&String>)
        ensures
            match value {
                Some(text) => self@.contains_key(key@) && self@[key@] == text@,
                None => !self@.contains_key(key@),
            },
    {
        match self.position(key) {
            Some(i) => Some(&self.pairs[i].1),
            None => None,
        }
    }

    /// Sets the value of a key.
    pub fn insert(&mut self, key: String, value: String)
        ensures
            final(self)@ == old(self)@.insert(key@, value@),
    {
        let ghost before = self.entries();
        let ghost name = key@;
        let ghost text = value@;
        match self.position(key.as_str()) {
            Some(i) => {
                self.pairs[i].1 = value;
                assert(self.entries() =~= before.update(i as int, (before[i as int].0, text)));
                assert forall|k: Seq<char>| lookup(self.entries(), k) == if k == name {
                    Some(text)
                } else {
                    lookup(before, k)
                } by {
                    lemma_lookup_update(before, i as int, text, k);
                }
            },
            None => {
                self.pairs.push((key, value));
                assert(self.entries() =~= before.push((name, text)));
                assert forall|k: Seq<char>| lookup(self.entries(), k) == if k == name {
                    Some(text)
                } else {
                    lookup(before, k)
                } by {
                    lemma_lookup_push(before, (name, text), k);
                }
            },
        }
        assert(self@ =~= Map::new(
            |k: Seq<char>| lookup(before, k) is Some,
            |k: Seq<char>| lookup(before, k).unwrap(),
        ).insert(name, text));
    }

    /// A copy of the attributes.
    pub fn duplicate(&self) -> (copy: Attributes)
        ensures
            copy@ == self@,
            copy.entries() == self.entries(),
    {
        let mut pairs: Vec<(String, String)> = Vec::new();
        let mut i: usize = 0;
        while i < self.pairs.len()
            invariant
                i <= self.pairs.len(),
                pairs@ == self.pairs@.take(i as int),
            decreases self.pairs.len() - i,
        {
            pairs.push((self.pairs[i].0.clone(), self.pairs[i].1.clone()));
            assert(self.pairs@.take(i + 1) == self.pairs@.take(i as int).push(self.pairs@[i as int]));
            i += 1;
        }
        assert(self.pairs@.take(i as int) == self.pairs@);
        Attributes { pairs }
    }

    /// The pairs of key and value, in the order in which the keys were
    /// first set.
    pub fn to_pairs(&self) -> (pairs: Vec<(String, String)>)
        ensures
            pairs_view(pairs@) == self.entries(),
    {
        self.duplicate().pairs
    }
}

/// One result of a query to the vector store.
#[derive(Debug, Clone)]
pub struct SearchResult {
    /// The document's id.
    pub id: String,
    /// The raw score in millionths: a cosine distance for a vector query
    /// (smaller is closer), a relevance for a lexical query (larger is
    /// better).
    pub score: u64,
    /// The document's attributes.
    pub attributes: Attributes,
}

/// The text of a failure of the form `api error (status): body`.
pub open spec fn api_error_text(status: u16, body: Seq<char>) -> Seq<char> {
    "api error ("@ + decimal(status as nat) + "): "@ + body
}

/// The text that describes a failure to embed.
pub open spec fn embedding_error_text(error: EmbeddingError) -> Seq<char> {
    match error {
        EmbeddingError::Request(reason) => "failed to send request: "@ + reason@,
        EmbeddingError::Api { status, body } => api_error_text(status, body@),
        EmbeddingError::EmptyResponse => "no embedding returned from provider"@,
        EmbeddingError::Other(reason) => reason@,
    }
}

/// The text that describes a failed query.
pub open spec fn vector_search_error_text(error: VectorSearchError) -> Seq<char> {
    match error {
        VectorSearchError::Request(reason) => "request failed: "@ + reason@,
        VectorSearchError::Api { status, body } => api_error_text(status, body@),
        VectorSearchError::QueryTooLong { message } => "query too long: "@ + message@,
        VectorSearchError::Parse(reason) => "parse error: "@ + reason@,
        VectorSearchError::Other(reason) => reason@,
    }
}

/// The text `api error (status): body`.
fn api_error_message(status: u16, body: &str) -> (text: String)
    ensures
        text@ == api_error_text(status, body@),
{
    let mut text = "api error (".to_owned();
    push_decimal(&mut text, status as u64);
    text.append("): ");
    text.append(body);
    text
}

impl EmbeddingError {
    /// The text that describes the failure.
    pub fn message(&self) -> (text: String)
        ensures
            text@ == embedding_error_text(*self),
    {
        match self {
            EmbeddingError::Request(reason) => concatenate("failed to send request: ", reason.as_str()),
            EmbeddingError::Api { status, body } => api_error_message(*status, body.as_str()),
            EmbeddingError::EmptyResponse => "no embedding returned from provider".to_owned(),
            EmbeddingError::Other(reason) => reason.clone(),
        }
    }
}

impl VectorSearchError {
    /// The text that describes the failure.
    pub fn message(&self) -> (text: String)
        ensures
            text@ == vector_search_error_text(*self),
    {
        match self {
            VectorSearchError::Request(reason) => concatenate("request failed: ", reason.as_str()),
            VectorSearchError::Api { status, body } => api_error_message(*status, body.as_str()),
            VectorSearchError::QueryTooLong { message } => concatenate(
                "query too long: ",
                message.as_str(),
            ),
            VectorSearchError::Parse(reason) => concatenate("parse error: ", reason.as_str()),
            VectorSearchError::Other(reason) => reason.clone(),
        }
    }
}

} // verus!
