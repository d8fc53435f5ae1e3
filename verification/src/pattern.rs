//! Regular expressions, compiled and matched by the `regex` crate.
//!
//! What a pattern means is the `regex` crate's business and is not proved
//! here. This module names the three facts that the rest of the crate reasons
//! with: whether a pattern compiles, what a compiled pattern was compiled
//! from, and whether it is found in a text.

use regex::Regex;
use vstd::prelude::*;

verus! {

/// Makes `regex::Regex` known as a type whose inside is not looked at.
#[verifier::external_type_specification]
#[verifier::external_body]
pub struct ExRegex(Regex);

/// Whether `regex::Regex::new` accepts `pattern`: its syntax is valid and the
/// compiled program stays within the crate's default size limit.
pub uninterp spec fn pattern_compiles(pattern: Seq<char>) -> bool;

/// Whether the regular expression that `regex::Regex::new` compiles from
/// `pattern` has a match anywhere in `text`.
pub uninterp spec fn pattern_found(pattern: Seq<char>, text: Seq<char>) -> bool;

/// The text that a regular expression was compiled from.
pub uninterp spec fn regex_source(regex: Regex) -> Seq<char>;

/// A compiled regular expression. A value of this type is only ever made by
/// [`Pattern::compile`], that is by `regex::Regex::new` with its default
/// options.
pub struct Pattern {
    pub(crate) regex: Regex,
}

impl Pattern {
    /// The text that the pattern was compiled from.
    pub(crate) open spec fn source(&self) -> Seq<char> {
        regex_source(self.regex)
    }

    /// Calls `regex::Regex::new`. It returns a pattern exactly for the texts
    /// that the crate accepts, and the pattern remembers the text it was
    /// compiled from.
    #[verifier::external_body]
    pub(crate) fn compile(text: &str) -> (compiled: Option<Pattern>)
        ensures
            compiled.is_some() == pattern_compiles(text@),
            compiled.is_some() ==> regex_source(compiled.unwrap().regex) == text@,
    {
        match Regex::new(text) {
            Ok(regex) => Some(Pattern { regex }),
            Err(_) => None,
        }
    }

    /// Calls `regex::Regex::is_match`, which searches the whole text for a
    /// match and does not anchor the pattern. The result depends on the
    /// pattern's source and the text alone, because every `Pattern` was
    /// compiled with the default options.
    #[verifier::external_body]
    pub(crate) fn is_match(&self, text: &str) -> (found: bool)
        ensures
            found == pattern_found(regex_source(self.regex), text@),
    {
        self.regex.is_match(text)
    }

    /// Calls `regex::Regex::as_str`, which returns the text that the pattern
    /// was compiled from.
    #[verifier::external_body]
    pub(crate) fn as_str(&self) -> (source: &str)
        ensures
            source@ == regex_source(self.regex),
    {
        self.regex.as_str()
    }
}

} // verus!
