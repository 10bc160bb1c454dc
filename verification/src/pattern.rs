//! Regular expressions, through the `regex` crate.
//!
//! What a pattern matches is not stated here: the results of the `regex` crate
//! are named (`pattern_compiles`, `pattern_captures`, `pattern_split`) and the
//! rest of the library is stated over those names.

use vstd::prelude::*;

verus! {

#[verifier::external_type_specification]
#[verifier::external_body]
pub struct ExRegex(regex::Regex);

/// Whether `regex::Regex::new` accepts `pattern`.
pub uninterp spec fn pattern_compiles(pattern: Seq<char>) -> bool;

/// The successive matches that `regex::Regex::captures_iter` yields for
/// `pattern` on `haystack`; for each match, the text of each group named in
/// `groups`, in that order (`None` where the group took no part in the match).
pub uninterp spec fn pattern_captures(
    pattern: Seq<char>,
    haystack: Seq<char>,
    groups: Seq<Seq<char>>,
) -> Seq<Seq<Option<Seq<char>>>>;

/// The pieces of `haystack` that `regex::Regex::split` yields for `pattern`.
pub uninterp spec fn pattern_split(pattern: Seq<char>, haystack: Seq<char>) -> Seq<Seq<char>>;

/// A compiled regular expression together with its source text.
///
/// Only `Pattern::new` builds one, from the text that it compiles, so
/// `compiled` is always the compilation of `source`; Verus does not check this.
pub struct Pattern {
    source: String,
    compiled: regex::Regex,
}

impl Pattern {
    /// The text the pattern was compiled from.
    pub closed spec fn source(&self) -> Seq<char> {
        self.source@
    }

    /// Compiles `pattern` with `regex::Regex::new`; `None` where that fails.
    /// Claims that success depends on the pattern alone.
    #[verifier::external_body]
    pub(crate) fn new(pattern: &str) -> (res: Option<Pattern>)
        ensures
            res is Some <==> pattern_compiles(pattern@),
            res matches Some(p) ==> p.source() == pattern@,
    {
        match regex::Regex::new(pattern) {
            Ok(compiled) => Some(Pattern { source: pattern.to_string(), compiled }),
            Err(_) => None,
        }
    }

    /// All matches of the pattern in `haystack` (`regex::Regex::captures_iter`),
    /// each given as the text of the named groups, in the order of `groups`.
    /// Claims that the result depends on the pattern, the haystack and the
    /// group names alone, and that each match lists one entry per name.
    #[verifier::external_body]
    pub(crate) fn captures(&self, haystack: &str, groups: &[&str]) -> (res: Vec<Vec<Option<String>>>)
        ensures
            res.deep_view() == pattern_captures(self.source(), haystack@, groups.deep_view()),
            forall|i: int| 0 <= i < res.len() ==> #[trigger] res[i].len() == groups.len(),
    {
        self.compiled.captures_iter(haystack).map(
            |c| groups.iter().map(|g| c.name(g).map(|m| m.as_str().to_string())).collect(),
        ).collect()
    }

    /// The pieces of `haystack` between the matches of the pattern
    /// (`regex::Regex::split`). Claims that the result depends on the pattern
    /// and the haystack alone.
    #[verifier::external_body]
    pub(crate) fn split(&self, haystack: &str) -> (res: Vec<String>)
        ensures
            res.deep_view() == pattern_split(self.source(), haystack@),
    {
        self.compiled.split(haystack).map(|s| s.to_string()).collect()
    }
}

} // verus!
