use bufo_search::etag::{generate_etag, matches_etag};
use std::collections::hash_map::DefaultHasher;
use std::hash::{Hash, Hasher};

/// The token as the standard library's `Hash` impls give it.
fn reference(
    query: &str,
    top_k: usize,
    alpha: f32,
    family_friendly: bool,
    exclude: &Option<String>,
    include_list: &Option<String>,
) -> String {
    let mut hasher = DefaultHasher::new();
    query.hash(&mut hasher);
    top_k.hash(&mut hasher);
    alpha.to_bits().hash(&mut hasher);
    family_friendly.hash(&mut hasher);
    exclude.hash(&mut hasher);
    include_list.hash(&mut hasher);
    format!("\"{}\"", hasher.finish())
}

fn some(text: &str) -> Option<String> {
    Some(text.to_string())
}

#[test]
fn etag_is_the_hash_of_the_fields_in_order() {
    let cases: Vec<(&str, usize, f32, bool, Option<String>, Option<String>)> = vec![
        ("happy", 10, 0.7, true, None, None),
        ("", 0, 0.0, false, None, None),
        ("apocalyptic bufo", 3, 1.0, true, some("party,excited"), None),
        ("bufo é", 50, 0.5, false, None, some("birthday-party")),
        ("x", usize::MAX, 0.123_456_79, true, some(""), some("")),
        ("in a giving mood", 1, f32::NAN, false, some("a"), some("b")),
    ];
    for (query, top_k, alpha, family_friendly, exclude, include_list) in cases {
        assert_eq!(
            generate_etag(query, top_k, alpha.to_bits(), family_friendly, &exclude, &include_list),
            reference(query, top_k, alpha, family_friendly, &exclude, &include_list),
            "{:?}",
            query
        );
    }
}

#[test]
fn etag_is_quoted_decimal() {
    let etag = generate_etag("happy", 10, 0.7f32.to_bits(), true, &None, &None);
    assert!(etag.len() >= 3);
    assert!(etag.starts_with('"') && etag.ends_with('"'));
    let digits = &etag[1..etag.len() - 1];
    assert!(digits.chars().all(|c| c.is_ascii_digit()));
    assert_eq!(digits.parse::<u64>().unwrap().to_string(), digits);
}

#[test]
fn etag_is_deterministic() {
    let exclude = some("party");
    let include_list = some("birthday");
    let first = generate_etag("happy", 10, 0.7f32.to_bits(), true, &exclude, &include_list);
    let exclude_again = some("party");
    let include_again = some("birthday");
    let second = generate_etag(
        &String::from("happy"),
        10,
        0.7f32.to_bits(),
        true,
        &exclude_again,
        &include_again,
    );
    assert_eq!(first, second);
}

#[test]
fn etag_changes_with_every_field() {
    let base = generate_etag("happy", 10, 0.7f32.to_bits(), true, &some("a"), &some("b"));
    let variants = vec![
        generate_etag("happx", 10, 0.7f32.to_bits(), true, &some("a"), &some("b")),
        generate_etag("happy", 11, 0.7f32.to_bits(), true, &some("a"), &some("b")),
        generate_etag("happy", 10, 0.700_000_1f32.to_bits(), true, &some("a"), &some("b")),
        generate_etag("happy", 10, 0.7f32.to_bits(), false, &some("a"), &some("b")),
        generate_etag("happy", 10, 0.7f32.to_bits(), true, &some("c"), &some("b")),
        generate_etag("happy", 10, 0.7f32.to_bits(), true, &some("a"), &some("c")),
        generate_etag("happy", 10, 0.7f32.to_bits(), true, &None, &some("b")),
        generate_etag("happy", 10, 0.7f32.to_bits(), true, &some("a"), &None),
        generate_etag("happy", 10, 0.7f32.to_bits(), true, &some("b"), &some("a")),
    ];
    for (i, variant) in variants.iter().enumerate() {
        assert_ne!(&base, variant, "variant {}", i);
    }
}

#[test]
fn etag_tells_an_empty_list_from_none() {
    let none = generate_etag("q", 1, 0, true, &None, &None);
    let empty = generate_etag("q", 1, 0, true, &some(""), &None);
    assert_ne!(none, empty);
}

#[test]
fn etag_match_is_exact() {
    let etag = generate_etag("happy", 10, 0.7f32.to_bits(), true, &None, &None);
    assert!(matches_etag(Some(etag.as_str()), &etag));
    assert!(!matches_etag(None, &etag));
    assert!(!matches_etag(Some(""), &etag));
    assert!(!matches_etag(Some("\"0\""), &etag));
    let unquoted = &etag[1..etag.len() - 1];
    assert!(!matches_etag(Some(unquoted), &etag));
}
