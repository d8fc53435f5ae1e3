//! Content filters: predicates that keep or reject a result by its name.

use crate::pattern::{pattern_compiles, pattern_found, Pattern};
use crate::text::{contains, joined, list_entries, occurs_in, split_list, views};
use vstd::prelude::*;
use vstd::string::*;

verus! {

/// Something that a filter can judge: it has a name.
pub trait Filterable {
    /// The name as a sequence of characters. A verified implementation
    /// states here what `name` returns; without that nothing is known of
    /// the name.
    open spec fn name_view(&self) -> Seq<char> {
        arbitrary()
    }

    /// The name that filters look at.
    fn name(&self) -> (name: &str)
        ensures
            name@ == self.name_view(),
    ;
}

/// A predicate that keeps or rejects items.
pub trait Filter<T: Filterable>: Send + Sync {
    /// Whether the filter keeps an item of the given name. A verified
    /// implementation states its rule here; without that nothing is known
    /// of the rule.
    open spec fn keeps(&self, name: Seq<char>) -> bool {
        arbitrary()
    }

    /// Returns true if the item should be kept.
    fn matches(&self, item: &T) -> (keep: bool)
        ensures
            keep == self.keeps(item.name_view()),
    ;
}

/// Whether one of the entries of a denylist occurs in the name.
pub open spec fn denylisted(entries: Seq<Seq<char>>, name: Seq<char>) -> bool {
    exists|i: int| 0 <= i < entries.len() && occurs_in(#[trigger] entries[i], name)
}

/// Whether one of the patterns is found in the name.
pub open spec fn any_found(patterns: Seq<Seq<char>>, name: Seq<char>) -> bool {
    exists|i: int| 0 <= i < patterns.len() && pattern_found(#[trigger] patterns[i], name)
}

/// Whether a name is admitted under a policy: in family-friendly mode a
/// name that holds a denylist entry is rejected, whatever else holds;
/// otherwise a name in which an include pattern is found is admitted;
/// otherwise a name in which an exclude pattern is found is rejected; every
/// other name is admitted.
pub open spec fn admits_under(
    family_friendly: bool,
    denylist: Seq<Seq<char>>,
    include_patterns: Seq<Seq<char>>,
    exclude_patterns: Seq<Seq<char>>,
    name: Seq<char>,
) -> bool {
    if family_friendly && denylisted(denylist, name) {
        false
    } else if any_found(include_patterns, name) {
        true
    } else {
        !any_found(exclude_patterns, name)
    }
}

/// The names that are never shown in family-friendly mode.
pub open spec fn inappropriate_names() -> Seq<Seq<char>> {
    seq![
        "bufo-juicy"@,
        "good-news-bufo-offers-suppository"@,
        "bufo-declines-your-suppository-offer"@,
        "tsa-bufo-gropes-you"@,
    ]
}

/// The entries among `candidates` that compile as regular expressions, in
/// their order.
pub open spec fn compilable(candidates: Seq<Seq<char>>) -> Seq<Seq<char>>
    decreases candidates.len(),
{
    if candidates.len() == 0 {
        Seq::empty()
    } else {
        let before = compilable(candidates.drop_last());
        if pattern_compiles(candidates.last()) {
            before.push(candidates.last())
        } else {
            before
        }
    }
}

/// The patterns that a comma-separated list stands for: its entries,
/// trimmed, without the empty ones and without those that do not compile.
pub open spec fn patterns_of(list: Seq<char>) -> Seq<Seq<char>> {
    compilable(list_entries(list, ','))
}

/// The patterns that an optional comma-separated list stands for: none
/// where there is no list.
pub open spec fn patterns_of_option(list: Option<Seq<char>>) -> Seq<Seq<char>> {
    match list {
        Some(text) => patterns_of(text),
        None => Seq::empty(),
    }
}

/// The view of an optional string slice.
pub open spec fn str_option_view(text: Option<&str>) -> Option<Seq<char>> {
    match text {
        Some(text) => Some(text@),
        None => None,
    }
}

/// The sources of a vector of compiled patterns.
pub(crate) open spec fn sources(patterns: Seq<Pattern>) -> Seq<Seq<char>> {
    Seq::new(patterns.len(), |i: int| patterns[i].source())
}

/// Compiles the entries of a comma-separated list. Entries that do not
/// compile are dropped without an error.
fn compile_list(list: &str) -> (patterns: Vec<Pattern>)
    ensures
        sources(patterns@) == patterns_of(list@),
{
    let entries = split_list(list, ',');
    let mut patterns: Vec<Pattern> = Vec::new();
    let mut i: usize = 0;
    assert(views(entries@).take(0) =~= Seq::<Seq<char>>::empty());
    assert(sources(patterns@) =~= Seq::<Seq<char>>::empty());
    while i < entries.len()
        invariant
            i <= entries.len(),
            sources(patterns@) == compilable(views(entries@).take(i as int)),
        decreases entries.len() - i,
    {
        let ghost before = sources(patterns@);
        assert(views(entries@).take(i + 1).drop_last() == views(entries@).take(i as int));
        assert(views(entries@).take(i + 1).last() == entries@[i as int]@);
        match Pattern::compile(entries[i].as_str()) {
            Some(pattern) => {
                patterns.push(pattern);
                assert(sources(patterns@) =~= before.push(entries@[i as int]@));
            },
            None => {},
        }
        i += 1;
    }
    assert(views(entries@).take(i as int) == views(entries@));
    patterns
}

/// Whether one of the compiled patterns is found in the name.
fn any_match(patterns: &Vec<Pattern>, name: &str) -> (found: bool)
    ensures
        found == any_found(sources(patterns@), name@),
{
    let mut i: usize = 0;
    while i < patterns.len()
        invariant
            i <= patterns.len(),
            forall|j: int| 0 <= j < i ==> !pattern_found(#[trigger] sources(patterns@)[j], name@),
        decreases patterns.len() - i,
    {
        if patterns[i].is_match(name) {
            assert(pattern_found(sources(patterns@)[i as int], name@));
            return true;
        }
        i += 1;
    }
    false
}

/// Rejects the names that hold an entry of a denylist.
pub struct BlocklistFilter {
    blocklist: Vec<&'static str>,
}

impl BlocklistFilter {
    /// The entries of the denylist.
    pub closed spec fn entries(&self) -> Seq<Seq<char>> {
        Seq::new(self.blocklist@.len(), |i: int| self.blocklist@[i]@)
    }

    /// The filter with the built-in denylist of inappropriate names.
    pub fn inappropriate_bufos() -> (filter: BlocklistFilter)
        ensures
            filter.entries() == inappropriate_names(),
    {
        let mut blocklist: Vec<&'static str> = Vec::new();
        blocklist.push("bufo-juicy");
        blocklist.push("good-news-bufo-offers-suppository");
        blocklist.push("bufo-declines-your-suppository-offer");
        blocklist.push("tsa-bufo-gropes-you");
        let filter = BlocklistFilter { blocklist };
        assert(filter.entries() =~= inappropriate_names());
        filter
    }

    /// Whether an entry of the denylist occurs in the name.
    pub fn blocks(&self, name: &str) -> (blocked: bool)
        ensures
            blocked == denylisted(self.entries(), name@),
    {
        let mut i: usize = 0;
        while i < self.blocklist.len()
            invariant
                i <= self.blocklist.len(),
                forall|j: int| 0 <= j < i ==> !occurs_in(#[trigger] self.entries()[j], name@),
            decreases self.blocklist.len() - i,
        {
            if contains(name, self.blocklist[i]) {
                assert(occurs_in(self.entries()[i as int], name@));
                return true;
            }
            i += 1;
        }
        false
    }
}

impl<T: Filterable> Filter<T> for BlocklistFilter {
    /// A name is kept unless an entry of the denylist occurs in it.
    open spec fn keeps(&self, name: Seq<char>) -> bool {
        !denylisted(self.entries(), name)
    }

    fn matches(&self, item: &T) -> (keep: bool) {
        !self.blocks(item.name())
    }
}

/// Rejects the names in which one of its patterns is found.
pub struct ExcludePatternFilter {
    patterns: Vec<Pattern>,
}

impl ExcludePatternFilter {
    /// The sources of the patterns, in their order.
    pub closed spec fn pattern_sources(&self) -> Seq<Seq<char>> {
        sources(self.patterns@)
    }

    /// The filter for a comma-separated list of patterns. Entries are
    /// trimmed; empty entries and entries that do not compile are dropped.
    pub fn from_comma_separated(pattern_str: &str) -> (filter: ExcludePatternFilter)
        ensures
            filter.pattern_sources() == patterns_of(pattern_str@),
    {
        ExcludePatternFilter { patterns: compile_list(pattern_str) }
    }

    /// The filter without patterns, which keeps every name.
    pub fn empty() -> (filter: ExcludePatternFilter)
        ensures
            filter.pattern_sources() == Seq::<Seq<char>>::empty(),
    {
        let filter = ExcludePatternFilter { patterns: Vec::new() };
        assert(filter.pattern_sources() =~= Seq::<Seq<char>>::empty());
        filter
    }
}

impl<T: Filterable> Filter<T> for ExcludePatternFilter {
    /// A name is kept unless one of the patterns is found in it.
    open spec fn keeps(&self, name: Seq<char>) -> bool {
        !any_found(self.pattern_sources(), name)
    }

    fn matches(&self, item: &T) -> (keep: bool) {
        !any_match(&self.patterns, item.name())
    }
}

/// The filter that a search applies: the family-friendly denylist, then the
/// include patterns, then the exclude patterns.
pub struct ContentFilter {
    family_friendly: bool,
    blocklist: BlocklistFilter,
    exclude: ExcludePatternFilter,
    include_patterns: Vec<Pattern>,
}

impl ContentFilter {
    /// Whether the built-in denylist is applied.
    pub closed spec fn is_family_friendly(&self) -> bool {
        self.family_friendly
    }

    /// The entries of the denylist.
    pub closed spec fn denylist(&self) -> Seq<Seq<char>> {
        self.blocklist.entries()
    }

    /// The sources of the exclude patterns.
    pub closed spec fn exclude_sources(&self) -> Seq<Seq<char>> {
        self.exclude.pattern_sources()
    }

    /// The sources of the include patterns.
    pub closed spec fn include_sources(&self) -> Seq<Seq<char>> {
        sources(self.include_patterns@)
    }

    /// Whether the filter admits a result of the given name.
    pub open spec fn admits(&self, name: Seq<char>) -> bool {
        admits_under(
            self.is_family_friendly(),
            self.denylist(),
            self.include_sources(),
            self.exclude_sources(),
            name,
        )
    }

    /// The filter for a request. The two lists are comma-separated; their
    /// entries are trimmed, and entries that are empty or do not compile as
    /// regular expressions are dropped without an error.
    pub fn new(family_friendly: bool, exclude_list: Option<&str>, include_list: Option<&str>) -> (filter:
        ContentFilter)
        ensures
            filter.is_family_friendly() == family_friendly,
            filter.denylist() == inappropriate_names(),
            filter.exclude_sources() == patterns_of_option(str_option_view(exclude_list)),
            filter.include_sources() == patterns_of_option(str_option_view(include_list)),
    {
        let exclude = match exclude_list {
            Some(list) => ExcludePatternFilter::from_comma_separated(list),
            None => ExcludePatternFilter::empty(),
        };
        let include_patterns: Vec<Pattern> = match include_list {
            Some(list) => compile_list(list),
            None => Vec::new(),
        };
        assert(include_list is None ==> sources(include_patterns@) =~= Seq::<Seq<char>>::empty());
        ContentFilter {
            family_friendly,
            blocklist: BlocklistFilter::inappropriate_bufos(),
            exclude,
            include_patterns,
        }
    }

    /// The number of exclude patterns that compiled.
    pub fn exclude_pattern_count(&self) -> (count: usize)
        ensures
            count == self.exclude_sources().len(),
    {
        self.exclude.patterns.len()
    }

    /// The exclude patterns that compiled, joined by commas.
    pub fn exclude_patterns_str(&self) -> (list: String)
        ensures
            list@ == joined(self.exclude_sources(), seq![',']),
    {
        let mut list = String::new();
        let mut i: usize = 0;
        assert(self.exclude_sources().take(0) =~= Seq::<Seq<char>>::empty());
        while i < self.exclude.patterns.len()
            invariant
                i <= self.exclude.patterns.len(),
                list@ == joined(self.exclude_sources().take(i as int), seq![',']),
            decreases self.exclude.patterns.len() - i,
        {
            let ghost so_far = self.exclude_sources().take(i as int);
            let ghost next = self.exclude_sources().take(i + 1);
            assert(next.drop_last() == so_far);
            assert(next.last() == self.exclude.patterns@[i as int].source());
            if i > 0 {
                list.push(',');
                assert(list@ == joined(so_far, seq![',']) + seq![',']);
            } else {
                assert(next.len() == 1);
            }
            list.append(self.exclude.patterns[i].as_str());
            i += 1;
        }
        assert(self.exclude_sources().take(i as int) == self.exclude_sources());
        list
    }

    /// Whether the filter admits the name.
    pub fn admits_name(&self, name: &str) -> (keep: bool)
        ensures
            keep == self.admits(name@),
    {
        if self.family_friendly && self.blocklist.blocks(name) {
            return false;
        }
        if any_match(&self.include_patterns, name) {
            return true;
        }
        !any_match(&self.exclude.patterns, name)
    }
}

impl<T: Filterable> Filter<T> for ContentFilter {
    /// The filter keeps the names that it admits.
    open spec fn keeps(&self, name: Seq<char>) -> bool {
        self.admits(name)
    }

    fn matches(&self, item: &T) -> (keep: bool) {
        self.admits_name(item.name())
    }
}

/// In family-friendly mode no include pattern brings back a name that holds
/// an entry of the denylist.
pub proof fn lemma_denylist_wins(filter: ContentFilter, name: Seq<char>)
    requires
        filter.is_family_friendly(),
        denylisted(filter.denylist(), name),
    ensures
        !filter.admits(name),
{
}

/// A name in which an include pattern is found is admitted even where an
/// exclude pattern is found in it too, unless the denylist rejects it.
pub proof fn lemma_include_overrides_exclude(filter: ContentFilter, name: Seq<char>)
    requires
        !(filter.is_family_friendly() && denylisted(filter.denylist(), name)),
        any_found(filter.include_sources(), name),
    ensures
        filter.admits(name),
{
}

} // verus!
