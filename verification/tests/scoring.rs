use bufo_search::score_map::ScoreMap;
use bufo_search::scoring::{
    cosine_distance_to_similarity, fuse_scores, normalize_bm25_scores, FusionConfig, MIN_SCALE, ONE,
};

/// A non-negative number as a fixed-point raw score.
fn raw(x: f64) -> u64 {
    (x * 1_000_000.0).round() as u64
}

/// A number as a fixed-point score.
fn fixed(x: f64) -> i64 {
    (x * 1_000_000.0).round() as i64
}

/// A fixed-point score as a number.
fn float(score: i64) -> f64 {
    score as f64 / 1_000_000.0
}

fn score_map(entries: &[(&str, f64)]) -> ScoreMap {
    let mut map = ScoreMap::new();
    for (id, score) in entries {
        map.insert(id.to_string(), fixed(*score));
    }
    map
}

#[test]
fn test_cosine_distance_to_similarity() {
    assert!((float(cosine_distance_to_similarity(raw(0.0))) - 1.0).abs() < 0.001);
    assert!((float(cosine_distance_to_similarity(raw(2.0))) - 0.0).abs() < 0.001);
    assert!((float(cosine_distance_to_similarity(raw(1.0))) - 0.5).abs() < 0.001);
}

#[test]
fn test_normalize_bm25_scores() {
    let scores = vec![
        ("a".to_string(), raw(10.0)),
        ("b".to_string(), raw(5.0)),
        ("c".to_string(), raw(2.5)),
    ];

    let normalized = normalize_bm25_scores(&scores);

    assert!((float(normalized.get("a").unwrap()) - 1.0).abs() < 0.001);
    assert!((float(normalized.get("b").unwrap()) - 0.5).abs() < 0.001);
    assert!((float(normalized.get("c").unwrap()) - 0.25).abs() < 0.001);
}

#[test]
fn test_fuse_scores_pure_semantic() {
    let mut semantic = ScoreMap::new();
    semantic.insert("a".to_string(), fixed(0.9));
    semantic.insert("b".to_string(), fixed(0.5));

    let mut keyword = ScoreMap::new();
    keyword.insert("a".to_string(), fixed(0.1));
    keyword.insert("c".to_string(), fixed(1.0));

    let config = FusionConfig::new(fixed(1.0)); // pure semantic
    let fused = fuse_scores(&semantic, &keyword, &config);

    assert_eq!(fused[0].0, "a");
    assert!((float(fused[0].1) - 0.9).abs() < 0.001);
}

#[test]
fn test_fuse_scores_balanced() {
    let mut semantic = ScoreMap::new();
    semantic.insert("a".to_string(), fixed(0.8));

    let mut keyword = ScoreMap::new();
    keyword.insert("a".to_string(), fixed(0.4));

    let config = FusionConfig::new(fixed(0.5)); // balanced
    let fused = fuse_scores(&semantic, &keyword, &config);

    // 0.5 * 0.8 + 0.5 * 0.4 = 0.6
    assert!((float(fused[0].1) - 0.6).abs() < 0.001);
}

#[test]
fn similarity_is_exact_at_the_ends_and_in_the_middle() {
    assert_eq!(cosine_distance_to_similarity(0), ONE);
    assert_eq!(cosine_distance_to_similarity(1_000_000), 500_000);
    assert_eq!(cosine_distance_to_similarity(2_000_000), 0);
    assert_eq!(cosine_distance_to_similarity(500_000), 750_000);
}

#[test]
fn similarity_rounds_half_a_millionth_down_in_the_distance() {
    assert_eq!(cosine_distance_to_similarity(1), ONE);
    assert_eq!(cosine_distance_to_similarity(3), ONE - 1);
}

#[test]
fn similarity_of_a_distance_above_two_is_negative() {
    assert_eq!(cosine_distance_to_similarity(3_000_000), -500_000);
    assert_eq!(cosine_distance_to_similarity(u64::MAX), ONE - (u64::MAX / 2) as i64);
}

#[test]
fn fusion_config_defaults() {
    let config = FusionConfig::default();
    assert_eq!(config.alpha, 700_000);
    assert_eq!(config.min_score, 1_000);
    let config = FusionConfig::new(250_000);
    assert_eq!(config.alpha, 250_000);
    assert_eq!(config.min_score, 1_000);
}

#[test]
fn normalize_empty_batch_gives_empty_map() {
    let normalized = normalize_bm25_scores(&[]);
    assert_eq!(normalized.len(), 0);
    assert_eq!(normalized.get("a"), None);
}

#[test]
fn normalize_maps_the_largest_score_to_one_exactly() {
    let scores = vec![
        ("low".to_string(), 1_234_567),
        ("top".to_string(), 7_654_321),
        ("mid".to_string(), 3_000_000),
    ];
    let normalized = normalize_bm25_scores(&scores);
    assert_eq!(normalized.get("top"), Some(ONE));
    // 1_234_567 * 1_000_000 / 7_654_321 = 161_290.20..
    assert_eq!(normalized.get("low"), Some(161_290));
    // 3_000_000 * 1_000_000 / 7_654_321 = 391_935.48..
    assert_eq!(normalized.get("mid"), Some(391_935));
}

#[test]
fn normalize_keeps_the_order_of_raw_scores() {
    let scores = vec![
        ("a".to_string(), 10),
        ("b".to_string(), 2_000),
        ("c".to_string(), 2_001),
        ("d".to_string(), 900_000),
    ];
    let normalized = normalize_bm25_scores(&scores);
    let a = normalized.get("a").unwrap();
    let b = normalized.get("b").unwrap();
    let c = normalized.get("c").unwrap();
    let d = normalized.get("d").unwrap();
    assert!(a <= b && b <= c && c <= d);
    assert_eq!(d, ONE);
}

#[test]
fn normalize_floors_the_divisor() {
    // every score is below 0.001, so the divisor is 0.001 and nothing reaches 1.0
    let scores = vec![("zero".to_string(), 0), ("tiny".to_string(), 500)];
    let normalized = normalize_bm25_scores(&scores);
    assert_eq!(normalized.get("zero"), Some(0));
    assert_eq!(normalized.get("tiny"), Some(500_000));
    assert_eq!(MIN_SCALE, 1_000);
}

#[test]
fn normalize_all_zero_batch_stays_zero() {
    let scores = vec![("a".to_string(), 0), ("b".to_string(), 0)];
    let normalized = normalize_bm25_scores(&scores);
    assert_eq!(normalized.get("a"), Some(0));
    assert_eq!(normalized.get("b"), Some(0));
}

#[test]
fn normalize_last_score_of_a_repeated_id_counts() {
    let scores = vec![
        ("a".to_string(), raw(8.0)),
        ("b".to_string(), raw(4.0)),
        ("a".to_string(), raw(2.0)),
    ];
    let normalized = normalize_bm25_scores(&scores);
    assert_eq!(normalized.len(), 2);
    // the largest raw score of the batch is still 8.0
    assert_eq!(normalized.get("a"), Some(250_000));
    assert_eq!(normalized.get("b"), Some(500_000));
    assert_eq!(normalized.id_at(0), "a");
    assert_eq!(normalized.id_at(1), "b");
}

#[test]
fn normalize_handles_the_largest_raw_scores() {
    let scores = vec![("a".to_string(), u64::MAX), ("b".to_string(), u64::MAX / 2)];
    let normalized = normalize_bm25_scores(&scores);
    assert_eq!(normalized.get("a"), Some(ONE));
    assert_eq!(normalized.get("b"), Some(499_999));
}

#[test]
fn score_map_insert_get_and_order() {
    let mut map = ScoreMap::new();
    assert_eq!(map.len(), 0);
    map.insert("x".to_string(), 5);
    map.insert("y".to_string(), 7);
    map.insert("x".to_string(), 9);
    assert_eq!(map.len(), 2);
    assert_eq!(map.get("x"), Some(9));
    assert_eq!(map.get("y"), Some(7));
    assert_eq!(map.get("z"), None);
    assert!(map.contains("x"));
    assert!(!map.contains("z"));
    assert_eq!(map.id_at(0), "x");
    assert_eq!(map.id_at(1), "y");
    assert_eq!(map.score_at(0), 9);
    assert_eq!(map.score_at(1), 7);
}

#[test]
fn fuse_pure_semantic_ranks_by_semantic_score() {
    let semantic = score_map(&[("a", 0.9), ("b", 0.5)]);
    let keyword = score_map(&[("a", 0.1), ("c", 1.0)]);
    let fused = fuse_scores(&semantic, &keyword, &FusionConfig::new(ONE));
    // "c" has no semantic score, so its fused score is 0 and it is dropped
    assert_eq!(fused, vec![("a".to_string(), 900_000), ("b".to_string(), 500_000)]);
}

#[test]
fn fuse_pure_keyword_ranks_by_keyword_score() {
    let semantic = score_map(&[("a", 0.9), ("b", 0.5)]);
    let keyword = score_map(&[("a", 0.1), ("c", 1.0)]);
    let fused = fuse_scores(&semantic, &keyword, &FusionConfig::new(0));
    assert_eq!(fused, vec![("c".to_string(), 1_000_000), ("a".to_string(), 100_000)]);
}

#[test]
fn fuse_balanced_is_exact() {
    let semantic = score_map(&[("a", 0.8)]);
    let keyword = score_map(&[("a", 0.4)]);
    let fused = fuse_scores(&semantic, &keyword, &FusionConfig::new(500_000));
    assert_eq!(fused, vec![("a".to_string(), 600_000)]);
}

#[test]
fn fuse_default_weight_formula() {
    let semantic = score_map(&[("a", 0.9), ("b", 0.6)]);
    let keyword = score_map(&[("a", 0.5), ("c", 1.0)]);
    let fused = fuse_scores(&semantic, &keyword, &FusionConfig::default());
    // a: 0.7 * 0.9 + 0.3 * 0.5 = 0.78; b: 0.7 * 0.6 = 0.42; c: 0.3 * 1.0 = 0.3
    assert_eq!(
        fused,
        vec![
            ("a".to_string(), 780_000),
            ("b".to_string(), 420_000),
            ("c".to_string(), 300_000),
        ]
    );
}

#[test]
fn fuse_rounds_down() {
    let mut semantic = ScoreMap::new();
    semantic.insert("a".to_string(), 333_333);
    let keyword = ScoreMap::new();
    // 0.7 * 0.333333 = 0.2333331
    let fused = fuse_scores(&semantic, &keyword, &FusionConfig::new(700_000));
    assert_eq!(fused, vec![("a".to_string(), 233_333)]);
}

#[test]
fn fuse_breaks_ties_by_order_of_discovery() {
    let semantic = score_map(&[("s2", 0.5), ("s1", 0.5)]);
    let keyword = score_map(&[("k1", 0.5), ("s1", 0.5), ("k0", 0.5)]);
    let fused = fuse_scores(&semantic, &keyword, &FusionConfig::new(500_000));
    // s1 has both signals; s2, k1 and k0 tie at 0.25 and keep their order of discovery
    assert_eq!(
        fused,
        vec![
            ("s1".to_string(), 500_000),
            ("s2".to_string(), 250_000),
            ("k1".to_string(), 250_000),
            ("k0".to_string(), 250_000),
        ]
    );
}

#[test]
fn fuse_drops_scores_at_or_below_the_floor() {
    let mut semantic = ScoreMap::new();
    semantic.insert("at".to_string(), 1_000);
    semantic.insert("above".to_string(), 1_001);
    semantic.insert("below".to_string(), 999);
    semantic.insert("negative".to_string(), -500_000);
    let keyword = ScoreMap::new();
    let fused = fuse_scores(&semantic, &keyword, &FusionConfig::new(ONE));
    assert_eq!(fused, vec![("above".to_string(), 1_001)]);
}

#[test]
fn fuse_uses_the_configured_floor() {
    let semantic = score_map(&[("a", 0.9), ("b", 0.5)]);
    let keyword = ScoreMap::new();
    let config = FusionConfig { alpha: ONE, min_score: 500_000 };
    let fused = fuse_scores(&semantic, &keyword, &config);
    assert_eq!(fused, vec![("a".to_string(), 900_000)]);
}

#[test]
fn fuse_empty_signals_give_nothing() {
    let fused = fuse_scores(&ScoreMap::new(), &ScoreMap::new(), &FusionConfig::default());
    assert!(fused.is_empty());
}

#[test]
fn fuse_negative_similarity_rounds_toward_minus_infinity() {
    let mut semantic = ScoreMap::new();
    semantic.insert("a".to_string(), -1);
    let mut keyword = ScoreMap::new();
    keyword.insert("a".to_string(), ONE);
    // (0.5 * -0.000001 + 0.5 * 1.0) = 0.4999995, rounded down
    let fused = fuse_scores(&semantic, &keyword, &FusionConfig::new(500_000));
    assert_eq!(fused, vec![("a".to_string(), 499_999)]);
}

#[test]
fn fuse_handles_extreme_scores() {
    let mut semantic = ScoreMap::new();
    semantic.insert("a".to_string(), i64::MAX);
    semantic.insert("b".to_string(), i64::MIN);
    let mut keyword = ScoreMap::new();
    keyword.insert("a".to_string(), i64::MAX);
    keyword.insert("b".to_string(), i64::MIN);
    let fused = fuse_scores(&semantic, &keyword, &FusionConfig::new(300_000));
    assert_eq!(fused, vec![("a".to_string(), i64::MAX)]);
}

#[test]
fn raising_a_semantic_score_never_lowers_rank() {
    let keyword = score_map(&[("a", 0.2), ("b", 0.9), ("c", 0.4)]);
    let config = FusionConfig::new(600_000);
    let before = fuse_scores(&score_map(&[("a", 0.5), ("b", 0.3), ("c", 0.45)]), &keyword, &config);
    let after = fuse_scores(&score_map(&[("a", 0.5), ("b", 0.3), ("c", 0.9)]), &keyword, &config);
    let place = |list: &Vec<(String, i64)>, id: &str| list.iter().position(|e| e.0 == id).unwrap();
    let score = |list: &Vec<(String, i64)>, id: &str| list[place(list, id)].1;
    assert!(score(&after, "c") >= score(&before, "c"));
    assert_eq!(score(&after, "a"), score(&before, "a"));
    assert_eq!(score(&after, "b"), score(&before, "b"));
    // c: 0.6 * 0.45 + 0.4 * 0.4 = 0.43 before, 0.6 * 0.9 + 0.4 * 0.4 = 0.70 after
    assert_eq!(score(&before, "c"), 430_000);
    assert_eq!(score(&after, "c"), 700_000);
    assert!(place(&before, "c") < place(&before, "a"));
    assert!(place(&after, "c") < place(&after, "a"));
    assert!(place(&after, "c") <= place(&before, "c"));
}

#[test]
fn raising_a_keyword_score_never_lowers_rank() {
    let semantic = score_map(&[("a", 0.5), ("b", 0.5)]);
    let config = FusionConfig::new(500_000);
    let before = fuse_scores(&semantic, &score_map(&[("b", 0.2), ("c", 0.6)]), &config);
    let after = fuse_scores(&semantic, &score_map(&[("b", 0.8), ("c", 0.6)]), &config);
    // before: b 0.35, c 0.3, a 0.25; after: b 0.65, c 0.3, a 0.25
    assert_eq!(
        before,
        vec![
            ("b".to_string(), 350_000),
            ("c".to_string(), 300_000),
            ("a".to_string(), 250_000),
        ]
    );
    assert_eq!(
        after,
        vec![
            ("b".to_string(), 650_000),
            ("c".to_string(), 300_000),
            ("a".to_string(), 250_000),
        ]
    );
}

#[test]
fn raising_a_score_to_a_tie_keeps_the_order_of_discovery() {
    let keyword = ScoreMap::new();
    let config = FusionConfig::new(ONE);
    let before = fuse_scores(&score_map(&[("a", 0.5), ("b", 0.3)]), &keyword, &config);
    let after = fuse_scores(&score_map(&[("a", 0.5), ("b", 0.5)]), &keyword, &config);
    assert_eq!(before, vec![("a".to_string(), 500_000), ("b".to_string(), 300_000)]);
    assert_eq!(after, vec![("a".to_string(), 500_000), ("b".to_string(), 500_000)]);
    // raised further, b overtakes a
    let further = fuse_scores(&score_map(&[("a", 0.5), ("b", 0.500001)]), &keyword, &config);
    assert_eq!(further, vec![("b".to_string(), 500_001), ("a".to_string(), 500_000)]);
}

#[test]
fn a_newly_scored_id_enters_behind_its_equals() {
    // "k" is only in the lexical signal at first, then gets a semantic score too
    let keyword = score_map(&[("k", 0.4), ("s", 0.4)]);
    let config = FusionConfig::new(500_000);
    let before = fuse_scores(&score_map(&[("s", 0.4)]), &keyword, &config);
    let after = fuse_scores(&score_map(&[("s", 0.4), ("k", 0.4)]), &keyword, &config);
    assert_eq!(before, vec![("s".to_string(), 400_000), ("k".to_string(), 200_000)]);
    assert_eq!(after, vec![("s".to_string(), 400_000), ("k".to_string(), 400_000)]);
}
