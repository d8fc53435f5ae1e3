use bufo_search::filter::ContentFilter;
use bufo_search::providers::{Attributes, EmbeddingError, SearchResult, VectorSearchError};
use bufo_search::scoring::FusionConfig;
use bufo_search::search::{
    default_alpha, default_family_friendly, default_top_k, fuse_results, perform_search,
    search_depth, select_results, BackendReply, BackendRequest, BufoResult, FusedCandidate,
    HybridSearch, SearchError, SearchProgress, SearchQuery, SearchResponse,
};

/// A non-negative number as a fixed-point raw score.
fn raw(x: f64) -> u64 {
    (x * 1_000_000.0).round() as u64
}

fn attributes(pairs: &[(&str, &str)]) -> Attributes {
    let mut attributes = Attributes::new();
    for (key, value) in pairs {
        attributes.insert(key.to_string(), value.to_string());
    }
    attributes
}

fn result(id: &str, score: f64, pairs: &[(&str, &str)]) -> SearchResult {
    SearchResult { id: id.to_string(), score: raw(score), attributes: attributes(pairs) }
}

fn named(id: &str, score: f64) -> SearchResult {
    let url = format!("https://bufo.zone/{}.png", id);
    result(id, score, &[("url", url.as_str()), ("name", id)])
}

fn query(text: &str, top_k: usize, alpha: f64) -> SearchQuery {
    SearchQuery {
        query: text.to_string(),
        top_k,
        alpha: (alpha * 1_000_000.0).round() as i64,
        family_friendly: true,
        exclude: None,
        include_list: None,
    }
}

fn shown(response: &SearchResponse) -> Vec<(String, String, String, i64)> {
    response
        .results
        .iter()
        .map(|r| (r.id.clone(), r.url.clone(), r.name.clone(), r.score))
        .collect()
}

fn row(id: &str, score: i64) -> (String, String, String, i64) {
    (id.to_string(), format!("https://bufo.zone/{}.png", id), id.to_string(), score)
}

fn fixture_vector_results() -> Vec<SearchResult> {
    vec![
        named("bufo-happy", 0.2),
        named("bufo-juicy", 0.1),
        named("bufo-sad", 0.8),
        named("bufo-party", 1.0),
    ]
}

fn fixture_keyword_results() -> Vec<SearchResult> {
    vec![named("bufo-happy", 4.0), named("bufo-dance", 8.0), named("bufo-sad", 2.0)]
}

#[test]
fn defaults() {
    assert_eq!(default_top_k(), 10);
    assert_eq!(default_alpha(), 700_000);
    assert!(default_family_friendly());
}

#[test]
fn end_to_end_fixture() {
    // similarities: happy 0.9, juicy 0.95, sad 0.6, party 0.5
    // lexical, scaled by 8.0: happy 0.5, dance 1.0, sad 0.25
    // fused at 0.7: happy 0.78, juicy 0.665, sad 0.495, party 0.35, dance 0.3
    // juicy is on the denylist; the first three of the rest are returned
    let response = perform_search(
        &query("happy", 3, 0.7),
        &fixture_vector_results(),
        &fixture_keyword_results(),
    );
    assert_eq!(
        shown(&response),
        vec![row("bufo-happy", 780_000), row("bufo-sad", 495_000), row("bufo-party", 350_000)]
    );
}

#[test]
fn end_to_end_through_the_steps() {
    let (search, request) = HybridSearch::begin(query("happy", 3, 0.7));
    match request {
        BackendRequest::Embed { text } => assert_eq!(text, "happy"),
        other => panic!("{:?}", other),
    }
    let search = match search.advance(BackendReply::Embedded(Ok(()))) {
        SearchProgress::Continue(search, BackendRequest::SearchByVector { top_k }) => {
            assert_eq!(top_k, 15);
            search
        }
        other => panic!("{:?}", other),
    };
    let search = match search.advance(BackendReply::VectorResults(Ok(fixture_vector_results()))) {
        SearchProgress::Continue(search, BackendRequest::SearchByKeyword { text, top_k }) => {
            assert_eq!(text, "happy");
            assert_eq!(top_k, 15);
            search
        }
        other => panic!("{:?}", other),
    };
    match search.advance(BackendReply::KeywordResults(Ok(fixture_keyword_results()))) {
        SearchProgress::Done(Ok(response)) => assert_eq!(
            shown(&response),
            vec![row("bufo-happy", 780_000), row("bufo-sad", 495_000), row("bufo-party", 350_000)]
        ),
        other => panic!("{:?}", other),
    }
}

#[test]
fn embedding_failure_ends_the_search() {
    let (search, _) = HybridSearch::begin(query("happy", 3, 0.7));
    match search.advance(BackendReply::Embedded(Err(EmbeddingError::EmptyResponse))) {
        SearchProgress::Done(Err(SearchError::Embedding(EmbeddingError::EmptyResponse))) => {}
        other => panic!("{:?}", other),
    }
}

#[test]
fn vector_search_failure_ends_the_search() {
    let (search, _) = HybridSearch::begin(query("happy", 3, 0.7));
    let search = match search.advance(BackendReply::Embedded(Ok(()))) {
        SearchProgress::Continue(search, _) => search,
        other => panic!("{:?}", other),
    };
    let failure = VectorSearchError::Api { status: 503, body: "down".to_string() };
    match search.advance(BackendReply::VectorResults(Err(failure))) {
        SearchProgress::Done(Err(SearchError::VectorSearch(VectorSearchError::Api {
            status,
            body,
        }))) => {
            assert_eq!(status, 503);
            assert_eq!(body, "down");
        }
        other => panic!("{:?}", other),
    }
}

#[test]
fn query_too_long_ends_the_search_as_a_bad_request() {
    let (search, _) = HybridSearch::begin(query("happy", 3, 0.7));
    let search = match search.advance(BackendReply::Embedded(Ok(()))) {
        SearchProgress::Continue(search, _) => search,
        other => panic!("{:?}", other),
    };
    let search = match search.advance(BackendReply::VectorResults(Ok(vec![]))) {
        SearchProgress::Continue(search, _) => search,
        other => panic!("{:?}", other),
    };
    let failure = VectorSearchError::QueryTooLong { message: "too long (max 1024)".to_string() };
    match search.advance(BackendReply::KeywordResults(Err(failure))) {
        SearchProgress::Done(Err(error)) => {
            assert!(matches!(
                error,
                SearchError::VectorSearch(VectorSearchError::QueryTooLong { .. })
            ));
            assert_eq!(error.into_http_error().status, 400);
        }
        other => panic!("{:?}", other),
    }
}

#[test]
fn a_reply_out_of_turn_changes_nothing() {
    let (search, _) = HybridSearch::begin(query("happy", 2, 0.7));
    let search = match search.advance(BackendReply::KeywordResults(Ok(fixture_keyword_results()))) {
        SearchProgress::Continue(search, BackendRequest::Embed { text }) => {
            assert_eq!(text, "happy");
            search
        }
        other => panic!("{:?}", other),
    };
    let search = match search.advance(BackendReply::Embedded(Ok(()))) {
        SearchProgress::Continue(search, BackendRequest::SearchByVector { top_k }) => {
            assert_eq!(top_k, 10);
            search
        }
        other => panic!("{:?}", other),
    };
    let search = match search.advance(BackendReply::Embedded(Err(EmbeddingError::EmptyResponse))) {
        SearchProgress::Continue(search, BackendRequest::SearchByVector { top_k }) => {
            assert_eq!(top_k, 10);
            search
        }
        other => panic!("{:?}", other),
    };
    let search = match search.advance(BackendReply::VectorResults(Ok(fixture_vector_results()))) {
        SearchProgress::Continue(search, BackendRequest::SearchByKeyword { .. }) => search,
        other => panic!("{:?}", other),
    };
    let search = match search.advance(BackendReply::VectorResults(Ok(vec![]))) {
        SearchProgress::Continue(search, BackendRequest::SearchByKeyword { .. }) => search,
        other => panic!("{:?}", other),
    };
    match search.advance(BackendReply::KeywordResults(Ok(fixture_keyword_results()))) {
        SearchProgress::Done(Ok(response)) => assert_eq!(
            shown(&response),
            vec![row("bufo-happy", 780_000), row("bufo-sad", 495_000)]
        ),
        other => panic!("{:?}", other),
    }
}

#[test]
fn search_depth_is_five_times_top_k() {
    assert_eq!(search_depth(0), 0);
    assert_eq!(search_depth(1), 5);
    assert_eq!(search_depth(10), 50);
    assert_eq!(search_depth(usize::MAX / 5), usize::MAX / 5 * 5);
}

#[test]
fn query_validity() {
    assert!(query("q", 10, 0.7).is_valid());
    assert!(query("q", 0, 0.0).is_valid());
    assert!(query("q", usize::MAX / 5, 1.0).is_valid());
    assert!(!query("q", usize::MAX / 5 + 1, 0.5).is_valid());
    assert!(!query("q", 10, 1.000_001).is_valid());
    assert!(!query("q", 10, -0.000_001).is_valid());
}

#[test]
fn filtering_comes_before_truncation() {
    // the two best candidates are rejected; the next two are still returned
    let vector = vec![
        named("bufo-juicy", 0.0),
        named("tsa-bufo-gropes-you", 0.1),
        named("bufo-a", 0.4),
        named("bufo-b", 0.6),
        named("bufo-c", 0.8),
    ];
    let response = perform_search(&query("q", 2, 1.0), &vector, &vec![]);
    assert_eq!(shown(&response), vec![row("bufo-a", 800_000), row("bufo-b", 700_000)]);
}

#[test]
fn fewer_results_than_asked_for() {
    let response = perform_search(&query("q", 10, 1.0), &vec![named("bufo-a", 0.4)], &vec![]);
    assert_eq!(shown(&response), vec![row("bufo-a", 800_000)]);
    let response = perform_search(&query("q", 0, 1.0), &vec![named("bufo-a", 0.4)], &vec![]);
    assert!(response.results.is_empty());
    let response = perform_search(&query("q", 5, 0.7), &vec![], &vec![]);
    assert!(response.results.is_empty());
}

#[test]
fn exclude_and_include_lists_of_the_query_apply() {
    let vector = vec![
        named("bufo-party", 0.2),
        named("bufo-birthday-party", 0.4),
        named("bufo-happy", 0.6),
    ];
    let mut q = query("q", 10, 1.0);
    q.exclude = Some("party".to_string());
    let response = perform_search(&q, &vector, &vec![]);
    assert_eq!(shown(&response), vec![row("bufo-happy", 700_000)]);
    q.include_list = Some("birthday-party".to_string());
    let response = perform_search(&q, &vector, &vec![]);
    assert_eq!(
        shown(&response),
        vec![row("bufo-birthday-party", 800_000), row("bufo-happy", 700_000)]
    );
}

#[test]
fn family_friendly_off_keeps_denylisted_names() {
    let mut q = query("q", 10, 1.0);
    q.family_friendly = false;
    let response = perform_search(&q, &vec![named("bufo-juicy", 0.0)], &vec![]);
    assert_eq!(shown(&response), vec![row("bufo-juicy", 1_000_000)]);
}

#[test]
fn the_filter_looks_at_the_name_attribute() {
    // the id is harmless, the name is not
    let vector = vec![result("1", 0.0, &[("name", "bufo-juicy")]), result("bufo-juicy", 0.2, &[("name", "fine")])];
    let response = perform_search(&query("q", 10, 1.0), &vector, &vec![]);
    assert_eq!(
        shown(&response),
        vec![("bufo-juicy".to_string(), "".to_string(), "fine".to_string(), 900_000)]
    );
}

#[test]
fn missing_attributes_get_defaults() {
    let vector = vec![result("bufo-a", 0.0, &[]), result("bufo-b", 0.2, &[("filename", "b.png")])];
    let response = perform_search(&query("q", 10, 1.0), &vector, &vec![]);
    assert_eq!(
        shown(&response),
        vec![
            ("bufo-a".to_string(), "".to_string(), "bufo-a".to_string(), 1_000_000),
            ("bufo-b".to_string(), "".to_string(), "bufo-b".to_string(), 900_000),
        ]
    );
}

#[test]
fn attributes_come_from_the_first_result_with_the_id() {
    let vector = vec![result("a", 0.2, &[("name", "from-vector")])];
    let keyword = vec![
        result("a", 2.0, &[("name", "from-keyword")]),
        result("b", 4.0, &[("name", "first"), ("url", "u")]),
        result("b", 1.0, &[("name", "later")]),
    ];
    let fused = fuse_results(&vector, &keyword, &FusionConfig::new(500_000));
    let seen: Vec<(String, i64, Vec<(String, String)>)> =
        fused.iter().map(|c| (c.id.clone(), c.score, c.attributes.to_pairs())).collect();
    // a: 0.5 * 0.9 + 0.5 * 0.5 = 0.7; b: last score 1.0 of 4.0 counts: 0.5 * 0.25 = 0.125
    assert_eq!(
        seen,
        vec![
            ("a".to_string(), 700_000, vec![("name".to_string(), "from-vector".to_string())]),
            (
                "b".to_string(),
                125_000,
                vec![
                    ("name".to_string(), "first".to_string()),
                    ("url".to_string(), "u".to_string())
                ]
            ),
        ]
    );
    let results = select_results(&fused, &ContentFilter::new(true, None, None), 10);
    assert_eq!(results[0].name, "from-vector");
    assert_eq!(results[1].name, "first");
}

#[test]
fn fuse_results_ranks_across_both_signals() {
    let fused = fuse_results(
        &fixture_vector_results(),
        &fixture_keyword_results(),
        &FusionConfig::default(),
    );
    let ranked: Vec<(String, i64)> = fused.iter().map(|c| (c.id.clone(), c.score)).collect();
    assert_eq!(
        ranked,
        vec![
            ("bufo-happy".to_string(), 780_000),
            ("bufo-juicy".to_string(), 665_000),
            ("bufo-sad".to_string(), 495_000),
            ("bufo-party".to_string(), 350_000),
            ("bufo-dance".to_string(), 300_000),
        ]
    );
}

#[test]
fn select_results_cuts_after_filtering() {
    let candidate = |id: &str, score: i64| FusedCandidate {
        id: id.to_string(),
        score,
        attributes: attributes(&[("name", id)]),
    };
    let fused = vec![
        candidate("bufo-draft-1", 900_000),
        candidate("bufo-a", 800_000),
        candidate("bufo-draft-2", 700_000),
        candidate("bufo-b", 600_000),
        candidate("bufo-c", 500_000),
    ];
    let filter = ContentFilter::new(true, Some("draft"), None);
    let names = |results: Vec<BufoResult>| -> Vec<String> {
        results.into_iter().map(|r| r.name).collect()
    };
    assert_eq!(names(select_results(&fused, &filter, 2)), vec!["bufo-a", "bufo-b"]);
    assert_eq!(names(select_results(&fused, &filter, 3)), vec!["bufo-a", "bufo-b", "bufo-c"]);
    assert_eq!(names(select_results(&fused, &filter, 9)), vec!["bufo-a", "bufo-b", "bufo-c"]);
    assert!(select_results(&fused, &filter, 0).is_empty());
}

#[test]
fn response_scores_stay_between_zero_and_one() {
    let response = perform_search(
        &query("happy", 10, 0.3),
        &fixture_vector_results(),
        &fixture_keyword_results(),
    );
    assert!(!response.results.is_empty());
    for result in &response.results {
        assert!(0 <= result.score && result.score <= 1_000_000);
    }
    for pair in response.results.windows(2) {
        assert!(pair[0].score >= pair[1].score);
    }
}
