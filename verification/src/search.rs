//! Hybrid search: the results of a vector query and of a lexical query are
//! normalised, fused, given their display attributes, filtered and cut to the
//! requested number.
//!
//! The vector query finds what is close in meaning and may miss an exact
//! name; the lexical query finds exact and partial names and knows nothing of
//! meaning. The weight `alpha` blends the two: `ONE` is purely semantic, 0
//! purely lexical.

use crate::filter::{
    admits_under, inappropriate_names, patterns_of_option, ContentFilter, Filterable,
};
use crate::providers::{
    embedding_error_text, vector_search_error_text, Attributes, EmbeddingError, SearchResult,
    VectorSearchError,
};
use crate::ranking::{is_ranking, lemma_ranking_exists, ranked_view, ranking_of};
use crate::score_map::ScoreMap;
use crate::scoring::{
    batch_of, candidates, cosine_distance_to_similarity, first_seen, fuse_scores, fused_score_of,
    fusion_score, lemma_candidates, lemma_first_seen, lemma_fused_between,
    lemma_normalized_bounded, lemma_raw_of, normalize_bm25_scores, normalized, raw_of,
    score_or_zero, similarity_of, FusionConfig, DEFAULT_MIN_SCORE, ONE,
};
use crate::etag::option_view;
use crate::text::concatenate;
use vstd::prelude::*;
use vstd::string::*;

verus! {

/// What a caller asks for.
#[derive(Debug)]
pub struct SearchQuery {
    /// The text to search for.
    pub query: String,
    /// How many results to return at most.
    pub top_k: usize,
    /// The weight of the semantic signal in millionths, from 0 (lexical
    /// only) to `ONE` (semantic only).
    pub alpha: i64,
    /// Whether inappropriate content is left out.
    pub family_friendly: bool,
    /// Comma-separated patterns; a result whose name matches one is left
    /// out.
    pub exclude: Option<String>,
    /// Comma-separated patterns; a result whose name matches one is kept
    /// even where an exclude pattern matches too.
    pub include_list: Option<String>,
}

impl SearchQuery {
    /// Whether the query can be served: the weight lies between 0 and `ONE`,
    /// and five times the result count fits the machine's word.
    pub open spec fn wf(&self) -> bool {
        0 <= self.alpha <= ONE && self.top_k * 5 <= usize::MAX
    }

    /// Whether the query can be served.
    pub fn is_valid(&self) -> (valid: bool)
        ensures
            valid == self.wf(),
    {
        0 <= self.alpha && self.alpha <= ONE && self.top_k <= usize::MAX / 5
    }

    /// The content policy that the query asks for, as a predicate on names.
    pub open spec fn policy(&self) -> spec_fn(Seq<char>) -> bool {
        |name: Seq<char>|
            admits_under(
                self.family_friendly,
                inappropriate_names(),
                patterns_of_option(option_view(self.include_list)),
                patterns_of_option(option_view(self.exclude)),
                name,
            )
    }
}

/// The number of results returned where the caller names none.
pub fn default_top_k() -> (top_k: usize)
    ensures
        top_k == 10,
{
    10
}

/// The weight used where the caller names none: 0.7.
pub fn default_alpha() -> (alpha: i64)
    ensures
        alpha == 700_000,
{
    700_000
}

/// Family-friendly mode is on where the caller does not say otherwise.
pub fn default_family_friendly() -> (family_friendly: bool)
    ensures
        family_friendly,
{
    true
}

/// One result as the caller sees it.
#[derive(Debug, Clone)]
pub struct BufoResult {
    pub id: String,
    pub url: String,
    pub name: String,
    /// The fused score in millionths.
    pub score: i64,
}

/// A displayed result as plain values.
pub struct BufoView {
    pub id: Seq<char>,
    pub url: Seq<char>,
    pub name: Seq<char>,
    pub score: i64,
}

impl View for BufoResult {
    type V = BufoView;

    open spec fn view(&self) -> BufoView {
        BufoView { id: self.id@, url: self.url@, name: self.name@, score: self.score }
    }
}

impl Filterable for BufoResult {
    open spec fn name_view(&self) -> Seq<char> {
        self.name@
    }

    fn name(&self) -> (name: &str) {
        self.name.as_str()
    }
}

/// The answer to a search: the results, best first.
#[derive(Debug)]
pub struct SearchResponse {
    pub results: Vec<BufoResult>,
}

/// Why a search failed.
#[derive(Debug)]
pub enum SearchError {
    /// The query text could not be embedded.
    Embedding(EmbeddingError),
    /// One of the two queries to the vector store failed.
    VectorSearch(VectorSearchError),
}

impl From<EmbeddingError> for SearchError {
    fn from(error: EmbeddingError) -> (wrapped: SearchError) {
        SearchError::Embedding(error)
    }
}

impl vstd::std_specs::convert::FromSpecImpl<EmbeddingError> for SearchError {
    open spec fn obeys_from_spec() -> bool {
        true
    }

    open spec fn from_spec(error: EmbeddingError) -> SearchError {
        SearchError::Embedding(error)
    }
}

impl From<VectorSearchError> for SearchError {
    fn from(error: VectorSearchError) -> (wrapped: SearchError) {
        SearchError::VectorSearch(error)
    }
}

impl vstd::std_specs::convert::FromSpecImpl<VectorSearchError> for SearchError {
    open spec fn obeys_from_spec() -> bool {
        true
    }

    open spec fn from_spec(error: VectorSearchError) -> SearchError {
        SearchError::VectorSearch(error)
    }
}

/// The text that describes a failed search.
pub open spec fn search_error_text(error: SearchError) -> Seq<char> {
    match error {
        SearchError::Embedding(cause) => "embedding error: "@ + embedding_error_text(cause),
        SearchError::VectorSearch(cause) => "vector search error: "@ + vector_search_error_text(
            cause,
        ),
    }
}

/// A failure as it is reported over HTTP.
#[derive(Debug)]
pub struct HttpError {
    /// The status code: 400 where the caller can mend the request, 500
    /// otherwise.
    pub status: u16,
    /// The text for the caller.
    pub message: String,
}

/// The text that tells the caller to shorten the query.
pub open spec fn too_long_text() -> Seq<char> {
    "search query is too long (max 1024 characters for text search). try a shorter query."@
}

impl SearchError {
    /// The text that describes the failure.
    pub fn message(&self) -> (text: String)
        ensures
            text@ == search_error_text(*self),
    {
        match self {
            SearchError::Embedding(cause) => {
                let inner = cause.message();
                concatenate("embedding error: ", inner.as_str())
            },
            SearchError::VectorSearch(cause) => {
                let inner = cause.message();
                concatenate("vector search error: ", inner.as_str())
            },
        }
    }

    /// Whether the failure is a query text that the store found too long.
    pub open spec fn is_query_too_long(&self) -> bool {
        self matches SearchError::VectorSearch(VectorSearchError::QueryTooLong { .. })
    }

    /// How the failure is reported to the caller. A query text that is too
    /// long is the caller's to mend and gets status 400 with a fixed text;
    /// every other failure gets status 500 with its description.
    pub fn into_http_error(self) -> (reported: HttpError)
        ensures
            self.is_query_too_long() ==> reported.status == 400 && reported.message@
                == too_long_text(),
            !self.is_query_too_long() ==> reported.status == 500 && reported.message@
                == search_error_text(self),
    {
        match &self {
            SearchError::VectorSearch(VectorSearchError::QueryTooLong { .. }) => HttpError {
                status: 400,
                message:
                    "search query is too long (max 1024 characters for text search). try a shorter query.".to_owned(),
            },
            _ => HttpError { status: 500, message: self.message() },
        }
    }
}

/// A fused candidate: an id with its fused score and the attributes of the
/// document.
#[derive(Debug)]
pub struct FusedCandidate {
    pub id: String,
    /// The fused score in millionths.
    pub score: i64,
    /// The attributes of the first raw result with this id.
    pub attributes: Attributes,
}

/// A fused candidate as plain values.
pub struct CandidateView {
    pub id: Seq<char>,
    pub score: i64,
    pub attributes: Map<Seq<char>, Seq<char>>,
}

impl View for FusedCandidate {
    type V = CandidateView;

    open spec fn view(&self) -> CandidateView {
        CandidateView { id: self.id@, score: self.score, attributes: self.attributes@ }
    }
}

/// The views of a list of candidates.
pub open spec fn candidate_views(fused: Seq<FusedCandidate>) -> Seq<CandidateView> {
    Seq::new(fused.len(), |i: int| fused[i]@)
}

/// The views of a list of results.
pub open spec fn result_views(results: Seq<BufoResult>) -> Seq<BufoView> {
    Seq::new(results.len(), |i: int| results[i]@)
}

/// The ids and raw scores of a list of results.
pub open spec fn raw_scores(results: Seq<SearchResult>) -> Seq<(Seq<char>, u64)> {
    Seq::new(results.len(), |i: int| (results[i].id@, results[i].score))
}

/// The semantic signal of a batch of distances: every id of the batch with
/// the similarity of its distance.
pub open spec fn similarities(batch: Seq<(Seq<char>, u64)>) -> Map<Seq<char>, i64> {
    Map::new(
        |id: Seq<char>| raw_of(batch, id) is Some,
        |id: Seq<char>| similarity_of(raw_of(batch, id).unwrap() as int) as i64,
    )
}

/// The attributes that the raw results hold for an id: those of the first
/// result with the id, none where no result has it.
pub open spec fn first_attributes(results: Seq<SearchResult>, id: Seq<char>) -> Map<
    Seq<char>,
    Seq<char>,
>
    decreases results.len(),
{
    if results.len() == 0 {
        Map::empty()
    } else if results.first().id@ == id {
        results.first().attributes@
    } else {
        first_attributes(results.drop_first(), id)
    }
}

/// The fused ranking of two raw result sets: the ids of both, scored by the
/// blend of similarity and normalised lexical score, above the floor.
pub open spec fn fused_ranking(
    vector_results: Seq<SearchResult>,
    bm25_results: Seq<SearchResult>,
    config: FusionConfig,
) -> Seq<(Seq<char>, i64)> {
    let semantic = raw_scores(vector_results);
    let keyword = raw_scores(bm25_results);
    ranking_of(
        candidates(first_seen(semantic), first_seen(keyword)),
        fusion_score(config.alpha as int, similarities(semantic), normalized(keyword)),
        config.min_score as int,
    )
}

/// A ranking with the attributes that the raw results hold for each id.
pub open spec fn with_attributes(
    ranking: Seq<(Seq<char>, i64)>,
    results: Seq<SearchResult>,
) -> Seq<CandidateView> {
    Seq::new(
        ranking.len(),
        |i: int|
            CandidateView {
                id: ranking[i].0,
                score: ranking[i].1,
                attributes: first_attributes(results, ranking[i].0),
            },
    )
}

/// The fused candidates of two raw result sets. Attributes come from the
/// vector results first.
pub open spec fn fused_candidates(
    vector_results: Seq<SearchResult>,
    bm25_results: Seq<SearchResult>,
    config: FusionConfig,
) -> Seq<CandidateView> {
    with_attributes(
        fused_ranking(vector_results, bm25_results, config),
        vector_results + bm25_results,
    )
}

/// The value of an attribute, or a default where the attribute is missing.
pub open spec fn attribute_or(
    attributes: Map<Seq<char>, Seq<char>>,
    key: Seq<char>,
    default: Seq<char>,
) -> Seq<char> {
    if attributes.contains_key(key) {
        attributes[key]
    } else {
        default
    }
}

/// How a candidate is displayed: its address is the attribute `url` (empty
/// where it is missing), its name the attribute `name` (the id where it is
/// missing).
pub open spec fn presented(candidate: CandidateView) -> BufoView {
    BufoView {
        id: candidate.id,
        url: attribute_or(candidate.attributes, "url"@, Seq::empty()),
        name: attribute_or(candidate.attributes, "name"@, candidate.id),
        score: candidate.score,
    }
}

/// The candidates that a policy admits, as they are displayed and in their
/// order.
pub open spec fn admitted(
    fused: Seq<CandidateView>,
    admits: spec_fn(Seq<char>) -> bool,
) -> Seq<BufoView>
    decreases fused.len(),
{
    if fused.len() == 0 {
        Seq::empty()
    } else {
        let before = admitted(fused.drop_last(), admits);
        let shown = presented(fused.last());
        if admits(shown.name) {
            before.push(shown)
        } else {
            before
        }
    }
}

/// The first `top_k` of the admitted candidates. The policy is applied
/// before the list is cut, so that rejected candidates do not use up
/// places.
pub open spec fn selection(
    fused: Seq<CandidateView>,
    admits: spec_fn(Seq<char>) -> bool,
    top_k: usize,
) -> Seq<BufoView> {
    let all = admitted(fused, admits);
    if all.len() <= top_k {
        all
    } else {
        all.take(top_k as int)
    }
}

/// The policy of a filter as a predicate on names.
pub open spec fn filter_policy(filter: ContentFilter) -> spec_fn(Seq<char>) -> bool {
    |name: Seq<char>| filter.admits(name)
}

/// What is admitted of a prefix of the candidates is a prefix of what is
/// admitted of all.
pub proof fn lemma_admitted_prefix(
    fused: Seq<CandidateView>,
    admits: spec_fn(Seq<char>) -> bool,
    n: int,
)
    requires
        0 <= n <= fused.len(),
    ensures
        admitted(fused.take(n), admits).len() <= admitted(fused, admits).len(),
        admitted(fused.take(n), admits) == admitted(fused, admits).take(
            admitted(fused.take(n), admits).len() as int,
        ),
    decreases fused.len() - n,
{
    if n == fused.len() {
        assert(fused.take(n) == fused);
        assert(admitted(fused, admits).take(admitted(fused, admits).len() as int) == admitted(
            fused,
            admits,
        ));
    } else {
        lemma_admitted_prefix(fused, admits, n + 1);
        assert(fused.take(n + 1).drop_last() == fused.take(n));
        let more = admitted(fused.take(n + 1), admits);
        let less = admitted(fused.take(n), admits);
        let all = admitted(fused, admits);
        assert(less == more.take(less.len() as int));
        assert(more.take(less.len() as int) == all.take(more.len() as int).take(less.len() as int));
        assert(all.take(more.len() as int).take(less.len() as int) == all.take(less.len() as int));
    }
}

/// The fused ranking is the ranking of the candidates under the fused
/// score: for every two raw result sets and every weight between 0 and `ONE`
/// there is exactly one.
pub proof fn lemma_fused_ranking(
    vector_results: Seq<SearchResult>,
    bm25_results: Seq<SearchResult>,
    config: FusionConfig,
)
    requires
        config.wf(),
    ensures
        is_ranking(
            fused_ranking(vector_results, bm25_results, config),
            candidates(
                first_seen(raw_scores(vector_results)),
                first_seen(raw_scores(bm25_results)),
            ),
            fusion_score(
                config.alpha as int,
                similarities(raw_scores(vector_results)),
                normalized(raw_scores(bm25_results)),
            ),
            config.min_score as int,
        ),
{
    let semantic = raw_scores(vector_results);
    let keyword = raw_scores(bm25_results);
    let found = candidates(first_seen(semantic), first_seen(keyword));
    let score = fusion_score(config.alpha as int, similarities(semantic), normalized(keyword));
    lemma_first_seen(semantic);
    lemma_first_seen(keyword);
    lemma_candidates(first_seen(semantic), first_seen(keyword));
    assert forall|k: int| 0 <= k < found.len() implies score(#[trigger] found[k]) <= i64::MAX by {
        lemma_fused_between(
            config.alpha as int,
            score_or_zero(similarities(semantic), found[k]),
            score_or_zero(normalized(keyword), found[k]),
        );
    }
    lemma_ranking_exists(found, score, config.min_score as int);
}

/// Every fused candidate comes from a raw result: its id is the id of a
/// vector result or of a lexical result.
pub proof fn lemma_fused_ids_are_known(
    vector_results: Seq<SearchResult>,
    bm25_results: Seq<SearchResult>,
    config: FusionConfig,
    i: int,
)
    requires
        config.wf(),
        0 <= i < fused_candidates(vector_results, bm25_results, config).len(),
    ensures
        ({
            let id = fused_candidates(vector_results, bm25_results, config)[i].id;
            ||| exists|j: int| 0 <= j < vector_results.len() && (#[trigger] vector_results[j]).id@ == id
            ||| exists|j: int| 0 <= j < bm25_results.len() && (#[trigger] bm25_results[j]).id@ == id
        }),
{
    let semantic = raw_scores(vector_results);
    let keyword = raw_scores(bm25_results);
    let ranking = fused_ranking(vector_results, bm25_results, config);
    let id = ranking[i].0;
    lemma_fused_ranking(vector_results, bm25_results, config);
    lemma_first_seen(semantic);
    lemma_first_seen(keyword);
    lemma_candidates(first_seen(semantic), first_seen(keyword));
    lemma_raw_of(semantic, id);
    lemma_raw_of(keyword, id);
    assert(candidates(first_seen(semantic), first_seen(keyword)).contains(ranking[i].0));
    assert(first_seen(semantic).contains(id) || first_seen(keyword).contains(id));
    if raw_of(semantic, id) is Some {
        let j = choose|j: int| 0 <= j < semantic.len() && (#[trigger] semantic[j]).0 == id;
        assert(vector_results[j].id@ == id);
    } else {
        let j = choose|j: int| 0 <= j < keyword.len() && (#[trigger] keyword[j]).0 == id;
        assert(bm25_results[j].id@ == id);
    }
}

/// Where every distance is at most `2 * ONE`, every fused score lies
/// between 0 and `ONE`.
pub proof fn lemma_fused_scores_bounded(
    vector_results: Seq<SearchResult>,
    bm25_results: Seq<SearchResult>,
    config: FusionConfig,
    i: int,
)
    requires
        config.wf(),
        forall|j: int| 0 <= j < vector_results.len() ==> (#[trigger] vector_results[j]).score <= 2 * ONE,
        0 <= i < fused_candidates(vector_results, bm25_results, config).len(),
    ensures
        0 <= fused_candidates(vector_results, bm25_results, config)[i].score <= ONE,
{
    let semantic = raw_scores(vector_results);
    let keyword = raw_scores(bm25_results);
    let ranking = fused_ranking(vector_results, bm25_results, config);
    let id = ranking[i].0;
    lemma_fused_ranking(vector_results, bm25_results, config);
    lemma_raw_of(semantic, id);
    lemma_normalized_bounded(keyword);
    if raw_of(semantic, id) is Some {
        let j = choose|j: int|
            0 <= j < semantic.len() && #[trigger] semantic[j] == (id, raw_of(semantic, id).unwrap());
        assert(vector_results[j].score <= 2 * ONE);
    }
    assert(0 <= score_or_zero(similarities(semantic), id) <= ONE);
    assert(0 <= score_or_zero(normalized(keyword), id) <= ONE);
    lemma_fused_between(
        config.alpha as int,
        score_or_zero(similarities(semantic), id),
        score_or_zero(normalized(keyword), id),
    );
    assert(ranking[i].1 == fused_score_of(
        config.alpha as int,
        similarities(semantic),
        normalized(keyword),
        id,
    ));
}

/// Whether `shown` is one of the candidates as it is displayed, and the
/// policy admits its name.
pub open spec fn is_admitted_candidate(
    fused: Seq<CandidateView>,
    admits: spec_fn(Seq<char>) -> bool,
    shown: BufoView,
) -> bool {
    exists|j: int| 0 <= j < fused.len() && shown == presented(#[trigger] fused[j]) && admits(shown.name)
}

/// What is admitted: each entry is a candidate as it is displayed whose name
/// the policy admits, and every such candidate is an entry.
pub proof fn lemma_admitted(fused: Seq<CandidateView>, admits: spec_fn(Seq<char>) -> bool)
    ensures
        forall|i: int|
            0 <= i < admitted(fused, admits).len() ==> is_admitted_candidate(
                fused,
                admits,
                #[trigger] admitted(fused, admits)[i],
            ),
        forall|j: int|
            0 <= j < fused.len() && admits(presented(#[trigger] fused[j]).name) ==> admitted(
                fused,
                admits,
            ).contains(presented(fused[j])),
    decreases fused.len(),
{
    if fused.len() > 0 {
        let rest = fused.drop_last();
        lemma_admitted(rest, admits);
        let before = admitted(rest, admits);
        let all = admitted(fused, admits);
        let shown = presented(fused.last());
        assert forall|i: int| 0 <= i < all.len() implies is_admitted_candidate(
            fused,
            admits,
            #[trigger] all[i],
        ) by {
            if i < before.len() {
                assert(all[i] == before[i]);
                assert(is_admitted_candidate(rest, admits, before[i]));
                let j = choose|j: int|
                    0 <= j < rest.len() && before[i] == presented(#[trigger] rest[j]) && admits(
                        before[i].name,
                    );
                assert(rest[j] == fused[j]);
            } else {
                assert(all[i] == presented(fused[fused.len() - 1]));
            }
        }
        assert forall|j: int|
            0 <= j < fused.len() && admits(presented(#[trigger] fused[j]).name) implies all.contains(
            presented(fused[j]),
        ) by {
            if j < rest.len() {
                assert(rest[j] == fused[j]);
                let i = choose|i: int| 0 <= i < before.len() && before[i] == presented(rest[j]);
                assert(all[i] == before[i]);
            } else {
                assert(all[all.len() - 1] == shown);
            }
        }
    }
}

/// What is selected: at most `top_k` results, each an admitted candidate as
/// it is displayed; and where fewer than `top_k` are selected, every
/// admitted candidate is among them.
pub proof fn lemma_selection(
    fused: Seq<CandidateView>,
    admits: spec_fn(Seq<char>) -> bool,
    top_k: usize,
)
    ensures
        selection(fused, admits, top_k).len() <= top_k,
        forall|i: int|
            0 <= i < selection(fused, admits, top_k).len() ==> is_admitted_candidate(
                fused,
                admits,
                #[trigger] selection(fused, admits, top_k)[i],
            ),
        selection(fused, admits, top_k).len() < top_k ==> forall|j: int|
            0 <= j < fused.len() && admits(presented(#[trigger] fused[j]).name) ==> selection(
                fused,
                admits,
                top_k,
            ).contains(presented(fused[j])),
{
    lemma_admitted(fused, admits);
    let all = admitted(fused, admits);
    let chosen = selection(fused, admits, top_k);
    assert forall|i: int| 0 <= i < chosen.len() implies is_admitted_candidate(
        fused,
        admits,
        #[trigger] chosen[i],
    ) by {
        assert(chosen[i] == all[i]);
    }
}

/// The scores of a response lie between 0 and `ONE`, provided every
/// distance of the vector results is at most `2 * ONE`.
pub proof fn lemma_response_scores_bounded(
    query: SearchQuery,
    vector_results: Seq<SearchResult>,
    bm25_results: Seq<SearchResult>,
    i: int,
)
    requires
        0 <= query.alpha <= ONE,
        forall|j: int| 0 <= j < vector_results.len() ==> (#[trigger] vector_results[j]).score <= 2 * ONE,
        0 <= i < search_results(query, vector_results, bm25_results).len(),
    ensures
        0 <= search_results(query, vector_results, bm25_results)[i].score <= ONE,
{
    let fused = fused_candidates(vector_results, bm25_results, fusion_config_of(query));
    lemma_selection(fused, query.policy(), query.top_k);
    let chosen = search_results(query, vector_results, bm25_results);
    assert(is_admitted_candidate(fused, query.policy(), chosen[i]));
    let j = choose|j: int| 0 <= j < fused.len() && chosen[i] == presented(#[trigger] fused[j]);
    lemma_fused_scores_bounded(vector_results, bm25_results, fusion_config_of(query), j);
}

/// The attributes of the first result with the given id in `results`, if
/// there is one.
fn find_attributes(results: &Vec<SearchResult>, id: &str) -> (found: Option<Attributes>)
    ensures
        match found {
            Some(attributes) => attributes@ == first_attributes(results@, id@) && exists|i: int|
                0 <= i < results.len() && (#[trigger] results[i]).id@ == id@,
            None => first_attributes(results@, id@) == Map::<Seq<char>, Seq<char>>::empty()
                && forall|i: int| 0 <= i < results.len() ==> (#[trigger] results[i]).id@ != id@,
        },
{
    let mut i: usize = 0;
    assert(results@.skip(0) == results@);
    while i < results.len()
        invariant
            i <= results.len(),
            forall|j: int| 0 <= j < i ==> (#[trigger] results[j]).id@ != id@,
            first_attributes(results@, id@) == first_attributes(results@.skip(i as int), id@),
        decreases results.len() - i,
    {
        assert(results@.skip(i as int).first() == results@[i as int]);
        assert(results@.skip(i as int).drop_first() == results@.skip(i + 1));
        if crate::text::str_eq(results[i].id.as_str(), id) {
            return Some(results[i].attributes.duplicate());
        }
        i += 1;
    }
    assert(results@.skip(i as int).len() == 0);
    None
}

/// Looking through one list and then another is looking through the two
/// put together.
pub proof fn lemma_first_attributes_of_both(
    first: Seq<SearchResult>,
    second: Seq<SearchResult>,
    id: Seq<char>,
)
    ensures
        first_attributes(first + second, id) == if exists|i: int|
            0 <= i < first.len() && (#[trigger] first[i]).id@ == id {
            first_attributes(first, id)
        } else {
            first_attributes(second, id)
        },
    decreases first.len(),
{
    if first.len() == 0 {
        assert(first + second == second);
    } else {
        assert((first + second).first() == first[0]);
        assert((first + second).drop_first() == first.drop_first() + second);
        if first[0].id@ == id {
        } else {
            lemma_first_attributes_of_both(first.drop_first(), second, id);
            if exists|i: int| 0 <= i < first.len() && (#[trigger] first[i]).id@ == id {
                let i = choose|i: int| 0 <= i < first.len() && (#[trigger] first[i]).id@ == id;
                assert(first.drop_first()[i - 1] == first[i]);
            } else {
                assert forall|i: int| 0 <= i < first.drop_first().len() implies (
                #[trigger] first.drop_first()[i]).id@ != id by {
                    assert(first.drop_first()[i] == first[i + 1]);
                }
            }
        }
    }
}

/// The semantic signal of the vector results: every id with the similarity
/// of its distance. Where an id occurs more than once its last distance
/// counts.
fn semantic_signal(vector_results: &Vec<SearchResult>) -> (signal: ScoreMap)
    ensures
        signal.wf(),
        signal@ == similarities(raw_scores(vector_results@)),
        signal.order() == first_seen(raw_scores(vector_results@)),
{
    let ghost batch = raw_scores(vector_results@);
    let mut signal = ScoreMap::new();
    let mut k: usize = 0;
    while k < vector_results.len()
        invariant
            k <= vector_results.len(),
            batch == raw_scores(vector_results@),
            signal.wf(),
            signal.order() == first_seen(batch.take(k as int)),
            forall|id: Seq<char>| signal@.contains_key(id) <==> raw_of(batch.take(k as int), id) is Some,
            forall|id: Seq<char>| #[trigger]
                signal@.contains_key(id) ==> signal@[id] == similarity_of(
                    raw_of(batch.take(k as int), id).unwrap() as int,
                ),
        decreases vector_results.len() - k,
    {
        assert(batch.take(k + 1).drop_last() == batch.take(k as int));
        let similarity = cosine_distance_to_similarity(vector_results[k].score);
        signal.insert(vector_results[k].id.clone(), similarity);
        k += 1;
    }
    assert(batch.take(k as int) == batch);
    assert(signal@ =~= similarities(batch));
    signal
}

/// The ids and raw scores of the lexical results.
fn keyword_batch(bm25_results: &Vec<SearchResult>) -> (batch: Vec<(String, u64)>)
    ensures
        batch_of(batch@) == raw_scores(bm25_results@),
{
    let mut batch: Vec<(String, u64)> = Vec::new();
    let mut i: usize = 0;
    while i < bm25_results.len()
        invariant
            i <= bm25_results.len(),
            batch_of(batch@) == raw_scores(bm25_results@).take(i as int),
        decreases bm25_results.len() - i,
    {
        let ghost before = batch_of(batch@);
        batch.push((bm25_results[i].id.clone(), bm25_results[i].score));
        assert(batch_of(batch@) =~= before.push((bm25_results@[i as int].id@, bm25_results@[i as int].score)));
        assert(raw_scores(bm25_results@).take(i + 1) =~= raw_scores(bm25_results@).take(i as int).push(
            raw_scores(bm25_results@)[i as int],
        ));
        i += 1;
    }
    assert(raw_scores(bm25_results@).take(i as int) == raw_scores(bm25_results@));
    batch
}

/// Fuses the results of the vector query and of the lexical query.
///
/// Distances become similarities, lexical scores are scaled by the largest
/// of their batch, and the two are blended under `fusion_config.alpha`. The
/// candidates come out best first, each with the attributes of the first raw
/// result that has its id, the vector results before the lexical ones.
pub fn fuse_results(
    vector_results: &Vec<SearchResult>,
    bm25_results: &Vec<SearchResult>,
    fusion_config: &FusionConfig,
) -> (fused: Vec<FusedCandidate>)
    requires
        fusion_config.wf(),
    ensures
        candidate_views(fused@) == fused_candidates(vector_results@, bm25_results@, *fusion_config),
{
    let semantic_scores = semantic_signal(vector_results);
    let bm25_raw = keyword_batch(bm25_results);
    let keyword_scores = normalize_bm25_scores(bm25_raw.as_slice());
    let ranked = fuse_scores(&semantic_scores, &keyword_scores, fusion_config);
    let ghost ranking = fused_ranking(vector_results@, bm25_results@, *fusion_config);
    let ghost all = vector_results@ + bm25_results@;
    let mut fused: Vec<FusedCandidate> = Vec::new();
    let mut i: usize = 0;
    while i < ranked.len()
        invariant
            i <= ranked.len(),
            ranked_view(ranked@) == ranking,
            all == vector_results@ + bm25_results@,
            candidate_views(fused@) == with_attributes(ranking, all).take(i as int),
        decreases ranked.len() - i,
    {
        let id = ranked[i].0.clone();
        proof {
            lemma_first_attributes_of_both(vector_results@, bm25_results@, id@);
        }
        let attributes = match find_attributes(vector_results, id.as_str()) {
            Some(found) => found,
            None => match find_attributes(bm25_results, id.as_str()) {
                Some(found) => found,
                None => Attributes::new(),
            },
        };
        assert(ranking[i as int] == ranked_view(ranked@)[i as int]);
        assert(attributes@ == first_attributes(all, id@));
        let ghost before = candidate_views(fused@);
        let candidate = FusedCandidate { id, score: ranked[i].1, attributes };
        assert(candidate@ == with_attributes(ranking, all)[i as int]);
        fused.push(candidate);
        assert(candidate_views(fused@) =~= before.push(candidate@));
        assert(with_attributes(ranking, all).take(i + 1) =~= with_attributes(ranking, all).take(
            i as int,
        ).push(with_attributes(ranking, all)[i as int]));
        i += 1;
    }
    assert(with_attributes(ranking, all).take(i as int) == with_attributes(ranking, all));
    fused
}

/// How a candidate is displayed.
fn present(candidate: &FusedCandidate) -> (shown: BufoResult)
    ensures
        shown@ == presented(candidate@),
{
    let url = match candidate.attributes.get("url") {
        Some(value) => value.clone(),
        None => String::new(),
    };
    let name = match candidate.attributes.get("name") {
        Some(value) => value.clone(),
        None => candidate.id.clone(),
    };
    BufoResult { id: candidate.id.clone(), url, name, score: candidate.score }
}

/// Applies the content filter to the fused candidates and keeps the first
/// `top_k` that it admits.
pub fn select_results(fused: &Vec<FusedCandidate>, filter: &ContentFilter, top_k: usize) -> (results:
    Vec<BufoResult>)
    ensures
        result_views(results@) == selection(candidate_views(fused@), filter_policy(*filter), top_k),
{
    let ghost views = candidate_views(fused@);
    let ghost policy = filter_policy(*filter);
    let mut results: Vec<BufoResult> = Vec::new();
    let mut i: usize = 0;
    assert(views.take(0) =~= Seq::<CandidateView>::empty());
    assert(result_views(results@) =~= Seq::<BufoView>::empty());
    while i < fused.len() && results.len() < top_k
        invariant
            i <= fused.len(),
            views == candidate_views(fused@),
            policy == filter_policy(*filter),
            results.len() <= top_k,
            result_views(results@) == admitted(views.take(i as int), policy),
        decreases fused.len() - i,
    {
        let ghost before = result_views(results@);
        assert(views.take(i + 1).drop_last() == views.take(i as int));
        assert(views.take(i + 1).last() == fused@[i as int]@);
        let shown = present(&fused[i]);
        if filter.admits_name(shown.name.as_str()) {
            results.push(shown);
            assert(result_views(results@) =~= before.push(presented(fused@[i as int]@)));
        }
        i += 1;
    }
    proof {
        lemma_admitted_prefix(views, policy, i as int);
        if i == fused.len() {
            assert(views.take(i as int) == views);
        }
    }
    results
}

/// How many candidates are asked of each backend for a search that is to
/// return `top_k` results: five times as many, so that enough are left after
/// filtering.
pub open spec fn search_depth_of(top_k: usize) -> int {
    top_k * 5
}

/// How many candidates to ask of each backend.
pub fn search_depth(top_k: usize) -> (depth: usize)
    requires
        search_depth_of(top_k) <= usize::MAX,
    ensures
        depth == search_depth_of(top_k),
{
    top_k * 5
}

/// The fusion settings of a query: its weight and the default floor.
pub open spec fn fusion_config_of(query: SearchQuery) -> FusionConfig {
    FusionConfig { alpha: query.alpha, min_score: DEFAULT_MIN_SCORE }
}

/// What a query returns for given answers of the two backend queries.
pub open spec fn search_results(
    query: SearchQuery,
    vector_results: Seq<SearchResult>,
    bm25_results: Seq<SearchResult>,
) -> Seq<BufoView> {
    selection(
        fused_candidates(vector_results, bm25_results, fusion_config_of(query)),
        query.policy(),
        query.top_k,
    )
}

/// The string slice in an optional string.
fn as_option_str(text: &Option<String>) -> (slice: Option<&str>)
    ensures
        crate::filter::str_option_view(slice) == option_view(*text),
{
    match text {
        Some(text) => Some(text.as_str()),
        None => None,
    }
}

/// Answers a query from the results of its two backend queries: fuses them
/// under the query's weight, applies the query's content policy and keeps
/// the first `top_k` of what is left.
pub fn perform_search(
    query: &SearchQuery,
    vector_results: &Vec<SearchResult>,
    bm25_results: &Vec<SearchResult>,
) -> (response: SearchResponse)
    requires
        0 <= query.alpha <= ONE,
    ensures
        result_views(response.results@) == search_results(*query, vector_results@, bm25_results@),
{
    let content_filter = ContentFilter::new(
        query.family_friendly,
        as_option_str(&query.exclude),
        as_option_str(&query.include_list),
    );
    let fusion_config = FusionConfig::new(query.alpha);
    let fused_results = fuse_results(vector_results, bm25_results, &fusion_config);
    let results = select_results(&fused_results, &content_filter, query.top_k);
    proof {
        assert(fusion_config == fusion_config_of(*query));
        assert(filter_policy(content_filter) =~= query.policy());
    }
    SearchResponse { results }
}

/// What a search waits for.
#[derive(Debug, Clone, Copy, PartialEq, Eq, Structural)]
pub enum SearchStage {
    /// The embedding of the query text.
    Embedding,
    /// The answer to the vector query.
    VectorSearch,
    /// The answer to the lexical query.
    KeywordSearch,
}

/// What the caller is to ask of a backend.
#[derive(Debug)]
pub enum BackendRequest {
    /// Embed this text.
    Embed { text: String },
    /// Find the `top_k` nearest neighbours of the embedding.
    SearchByVector { top_k: usize },
    /// Find the `top_k` best lexical matches of this text.
    SearchByKeyword { text: String, top_k: usize },
}

/// What a backend answered.
#[derive(Debug)]
pub enum BackendReply {
    /// The embedding provider answered. The embedding itself stays with the
    /// caller, who hands it to the vector query.
    Embedded(Result<(), EmbeddingError>),
    /// The vector store answered the vector query.
    VectorResults(Result<Vec<SearchResult>, VectorSearchError>),
    /// The vector store answered the lexical query.
    KeywordResults(Result<Vec<SearchResult>, VectorSearchError>),
}

/// A search under way: the query, what it waits for, and what it has
/// gathered.
#[derive(Debug)]
pub struct HybridSearch {
    query: SearchQuery,
    stage: SearchStage,
    vector_results: Vec<SearchResult>,
}

/// Where a search stands after a reply.
#[derive(Debug)]
pub enum SearchProgress {
    /// The search goes on: the caller makes the request and hands the reply
    /// to `advance`.
    Continue(HybridSearch, BackendRequest),
    /// The search has ended, with a response or with the failure that
    /// ended it.
    Done(Result<SearchResponse, SearchError>),
}

/// Whether a request is the one that a query makes at a stage: first the
/// embedding of the text, then the vector query, then the lexical query, both
/// to the same depth.
pub open spec fn is_request_of(request: BackendRequest, query: SearchQuery, stage: SearchStage) -> bool {
    match stage {
        SearchStage::Embedding => request matches BackendRequest::Embed { text } && text@
            == query.query@,
        SearchStage::VectorSearch => request matches BackendRequest::SearchByVector { top_k }
            && top_k == search_depth_of(query.top_k),
        SearchStage::KeywordSearch => request matches BackendRequest::SearchByKeyword {
            text,
            top_k,
        } && text@ == query.query@ && top_k == search_depth_of(query.top_k),
    }
}

impl HybridSearch {
    /// The query that is being served.
    pub closed spec fn query(&self) -> SearchQuery {
        self.query
    }

    /// What the search waits for.
    pub closed spec fn stage(&self) -> SearchStage {
        self.stage
    }

    /// The answer to the vector query, once it has come.
    pub closed spec fn vector_results(&self) -> Seq<SearchResult> {
        self.vector_results@
    }

    /// The query can be served.
    pub closed spec fn wf(&self) -> bool {
        self.query.wf()
    }

    /// The request that the search makes at its stage.
    fn request(&self) -> (request: BackendRequest)
        requires
            self.wf(),
        ensures
            is_request_of(request, self.query(), self.stage()),
    {
        match self.stage {
            SearchStage::Embedding => BackendRequest::Embed { text: self.query.query.clone() },
            SearchStage::VectorSearch => BackendRequest::SearchByVector {
                top_k: search_depth(self.query.top_k),
            },
            SearchStage::KeywordSearch => BackendRequest::SearchByKeyword {
                text: self.query.query.clone(),
                top_k: search_depth(self.query.top_k),
            },
        }
    }

    /// Starts a search. The first thing to ask for is the embedding of the
    /// query text.
    pub fn begin(query: SearchQuery) -> (started: (HybridSearch, BackendRequest))
        requires
            query.wf(),
        ensures
            started.0.wf(),
            started.0.query() == query,
            started.0.stage() == SearchStage::Embedding,
            is_request_of(started.1, query, SearchStage::Embedding),
    {
        let search = HybridSearch { query, stage: SearchStage::Embedding, vector_results: Vec::new() };
        let request = search.request();
        (search, request)
    }

    /// Takes a backend's reply and says how the search goes on.
    ///
    /// A failure ends the search at once: a failed embedding as
    /// `SearchError::Embedding`, a failed query as `SearchError::VectorSearch`.
    /// Nothing is tried again. After the embedding comes the vector query,
    /// after the vector results the lexical query, and the lexical results
    /// end the search with its response. A reply that the search does not
    /// wait for changes nothing: the search asks again for what it waits for.
    pub fn advance(self, reply: BackendReply) -> (progress: SearchProgress)
        requires
            self.wf(),
        ensures
            match (self.stage(), reply) {
                (SearchStage::Embedding, BackendReply::Embedded(Ok(_))) => progress matches SearchProgress::Continue(
                    next,
                    request,
                ) && next.wf() && next.query() == self.query() && next.stage()
                    == SearchStage::VectorSearch && is_request_of(
                    request,
                    self.query(),
                    SearchStage::VectorSearch,
                ),
                (SearchStage::Embedding, BackendReply::Embedded(Err(cause))) => progress
                    == SearchProgress::Done(Err(SearchError::Embedding(cause))),
                (SearchStage::VectorSearch, BackendReply::VectorResults(Ok(found))) => progress matches SearchProgress::Continue(
                    next,
                    request,
                ) && next.wf() && next.query() == self.query() && next.stage()
                    == SearchStage::KeywordSearch && next.vector_results() == found@
                    && is_request_of(request, self.query(), SearchStage::KeywordSearch),
                (SearchStage::VectorSearch, BackendReply::VectorResults(Err(cause))) => progress
                    == SearchProgress::Done(Err(SearchError::VectorSearch(cause))),
                (SearchStage::KeywordSearch, BackendReply::KeywordResults(Ok(found))) => progress matches SearchProgress::Done(
                    Ok(response),
                ) && result_views(response.results@) == search_results(
                    self.query(),
                    self.vector_results(),
                    found@,
                ),
                (SearchStage::KeywordSearch, BackendReply::KeywordResults(Err(cause))) => progress
                    == SearchProgress::Done(Err(SearchError::VectorSearch(cause))),
                _ => progress matches SearchProgress::Continue(next, request) && next == self
                    && is_request_of(request, self.query(), self.stage()),
            },
    {
        match (self.stage, reply) {
            (SearchStage::Embedding, BackendReply::Embedded(Ok(_))) => {
                let next = HybridSearch {
                    query: self.query,
                    stage: SearchStage::VectorSearch,
                    vector_results: self.vector_results,
                };
                let request = next.request();
                SearchProgress::Continue(next, request)
            },
            (SearchStage::Embedding, BackendReply::Embedded(Err(cause))) => SearchProgress::Done(
                Err(SearchError::from(cause)),
            ),
            (SearchStage::VectorSearch, BackendReply::VectorResults(Ok(found))) => {
                let next = HybridSearch {
                    query: self.query,
                    stage: SearchStage::KeywordSearch,
                    vector_results: found,
                };
                let request = next.request();
                SearchProgress::Continue(next, request)
            },
            (SearchStage::VectorSearch, BackendReply::VectorResults(Err(cause))) => SearchProgress::Done(
                Err(SearchError::from(cause)),
            ),
            (SearchStage::KeywordSearch, BackendReply::KeywordResults(Ok(found))) => {
                let response = perform_search(&self.query, &self.vector_results, &found);
                SearchProgress::Done(Ok(response))
            },
            (SearchStage::KeywordSearch, BackendReply::KeywordResults(Err(cause))) => SearchProgress::Done(
                Err(SearchError::from(cause)),
            ),
            (_, _) => {
                let request = self.request();
                SearchProgress::Continue(self, request)
            },
        }
    }
}

} // verus!
