use bufo_search::filter::{BlocklistFilter, ContentFilter, ExcludePatternFilter, Filter, Filterable};

struct TestItem {
    name: String,
}

impl Filterable for TestItem {
    fn name(&self) -> &str {
        &self.name
    }
}

fn item(name: &str) -> TestItem {
    TestItem { name: name.into() }
}

#[test]
fn test_blocklist_filter() {
    let filter = BlocklistFilter::inappropriate_bufos();
    let good = TestItem {
        name: "bufo-happy".into(),
    };
    let bad = TestItem {
        name: "bufo-juicy".into(),
    };

    assert!(filter.matches(&good));
    assert!(!filter.matches(&bad));
}

#[test]
fn test_exclude_pattern_filter() {
    let filter = ExcludePatternFilter::from_comma_separated("test, draft");
    let good = TestItem {
        name: "bufo-happy".into(),
    };
    let bad = TestItem {
        name: "bufo-test-mode".into(),
    };

    assert!(filter.matches(&good));
    assert!(!filter.matches(&bad));
}

#[test]
fn test_include_overrides_exclude() {
    let filter = ContentFilter::new(false, Some("party"), Some("birthday-party"));
    let excluded = TestItem {
        name: "bufo-party".into(),
    };
    let included = TestItem {
        name: "bufo-birthday-party".into(),
    };

    assert!(!filter.matches(&excluded));
    assert!(filter.matches(&included));
}

#[test]
fn blocklist_rejects_every_entry_as_a_substring() {
    let filter = BlocklistFilter::inappropriate_bufos();
    for name in [
        "bufo-juicy",
        "good-news-bufo-offers-suppository",
        "bufo-declines-your-suppository-offer",
        "tsa-bufo-gropes-you",
        "very-bufo-juicy-indeed",
        "xtsa-bufo-gropes-youx",
    ] {
        assert!(filter.blocks(name), "{}", name);
        assert!(!filter.matches(&item(name)), "{}", name);
    }
    for name in ["", "bufo", "bufo-juic", "ufo-juicy", "bufo--juicy", "BUFO-JUICY"] {
        assert!(!filter.blocks(name), "{}", name);
        assert!(filter.matches(&item(name)), "{}", name);
    }
}

#[test]
fn family_friendly_rejection_is_not_overridden_by_include() {
    let filter = ContentFilter::new(true, None, Some("juicy,bufo"));
    assert!(!filter.matches(&item("bufo-juicy")));
    assert!(!filter.admits_name("the-bufo-juicy-one"));
    assert!(filter.matches(&item("bufo-happy")));
}

#[test]
fn without_family_friendly_the_denylist_is_not_applied() {
    let filter = ContentFilter::new(false, None, None);
    assert!(filter.matches(&item("bufo-juicy")));
    assert!(filter.matches(&item("tsa-bufo-gropes-you")));
}

#[test]
fn exclude_rejects_and_everything_else_is_accepted() {
    let filter = ContentFilter::new(true, Some("party"), None);
    assert!(!filter.admits_name("bufo-party"));
    assert!(filter.admits_name("bufo-happy"));
    assert!(filter.admits_name(""));
}

#[test]
fn include_overrides_exclude_in_family_friendly_mode_too() {
    let filter = ContentFilter::new(true, Some("party"), Some("birthday-party"));
    assert!(!filter.admits_name("bufo-party"));
    assert!(filter.admits_name("bufo-birthday-party"));
}

#[test]
fn patterns_are_searched_not_anchored() {
    let filter = ContentFilter::new(false, Some("^bufo-a.*z$, [0-9]{3}"), None);
    assert!(!filter.admits_name("bufo-a-to-z"));
    assert!(filter.admits_name("a-bufo-a-to-z"));
    assert!(!filter.admits_name("bufo-2024"));
    assert!(filter.admits_name("bufo-24"));
}

#[test]
fn invalid_patterns_are_dropped() {
    let filter = ContentFilter::new(false, Some("party, (unclosed, [a-, draft"), None);
    assert_eq!(filter.exclude_pattern_count(), 2);
    assert_eq!(filter.exclude_patterns_str(), "party,draft");
    assert!(!filter.admits_name("bufo-party"));
    assert!(!filter.admits_name("bufo-draft"));
    assert!(filter.admits_name("bufo-(unclosed"));
}

#[test]
fn invalid_include_patterns_are_dropped() {
    let filter = ContentFilter::new(false, Some("bufo"), Some("*, happy"));
    assert!(filter.admits_name("bufo-happy"));
    assert!(!filter.admits_name("bufo-sad"));
}

#[test]
fn entries_are_trimmed_and_empty_entries_are_dropped() {
    let filter = ContentFilter::new(false, Some(" ,\tparty \n,, ,draft,"), None);
    assert_eq!(filter.exclude_pattern_count(), 2);
    assert_eq!(filter.exclude_patterns_str(), "party,draft");
}

#[test]
fn no_exclude_list_means_no_patterns() {
    let filter = ContentFilter::new(true, None, None);
    assert_eq!(filter.exclude_pattern_count(), 0);
    assert_eq!(filter.exclude_patterns_str(), "");
    let filter = ContentFilter::new(true, Some(""), Some(""));
    assert_eq!(filter.exclude_pattern_count(), 0);
    assert_eq!(filter.exclude_patterns_str(), "");
    assert!(filter.admits_name("anything"));
}

#[test]
fn one_pattern_is_joined_without_a_comma() {
    let filter = ContentFilter::new(true, Some("a+b"), None);
    assert_eq!(filter.exclude_pattern_count(), 1);
    assert_eq!(filter.exclude_patterns_str(), "a+b");
}

#[test]
fn empty_exclude_filter_keeps_everything() {
    let filter = ExcludePatternFilter::empty();
    assert!(filter.matches(&item("bufo-test-mode")));
    assert!(filter.matches(&item("")));
}

#[test]
fn exclude_filter_second_entry_counts() {
    let filter = ExcludePatternFilter::from_comma_separated("test, draft");
    assert!(!filter.matches(&item("my-draft")));
    assert!(filter.matches(&item("my-dra-ft")));
}
