//! Regex support for first-line matching, backed by the oniguruma bindings.
//!
//! Whether a pattern compiles, and whether a compiled pattern matches a text,
//! are functions of the involved strings alone; both get an opaque name here
//! and every contract speaks through those names.

use vstd::prelude::*;

verus! {

#[verifier::external_type_specification]
#[verifier::external_body]
pub struct ExRegex(onig::Regex);

/// Whether `onig::Regex::new` accepts `pattern`.
pub uninterp spec fn regex_compiles(pattern: Seq<char>) -> bool;

/// Whether the regex compiled from `pattern` reports a match anywhere in
/// `text`; a search error from the engine (such as its retry limit) counts
/// as no match.
pub uninterp spec fn regex_matches(pattern: Seq<char>, text: Seq<char>) -> bool;

/// A compiled regex together with the pattern it was compiled from. The only
/// constructor is `compile`, so the two fields always belong together.
pub struct CompiledRegex {
    regex: onig::Regex,
    pattern: String,
}

impl CompiledRegex {
    /// The pattern this regex was compiled from.
    pub closed spec fn pat(&self) -> Seq<char> {
        self.pattern@
    }

    /// Relies on `onig::Regex::new`: compilation succeeds or fails depending
    /// on the pattern text alone; on success the pattern is kept verbatim.
    #[verifier::external_body]
    pub fn compile(pattern: &str) -> (res: Option<CompiledRegex>)
        ensures
            (res is Some) == regex_compiles(pattern@),
            res is Some ==> res.unwrap().pat() == pattern@,
    {
        match onig::Regex::new(pattern) {
            Ok(regex) => Some(CompiledRegex { regex, pattern: pattern.to_owned() }),
            Err(_) => None,
        }
    }

    /// Relies on `onig::Regex::search_with_param` over the whole text with
    /// default options and match parameters: whether a match is reported
    /// depends only on the pattern and the text, and an `Err` from the
    /// engine (its retry limit, for one) is deterministic too and counts as
    /// no match. `Regex::find` is avoided: it panics on such errors.
    #[verifier::external_body]
    pub fn matches(&self, text: &str) -> (r: bool)
        ensures
            r == regex_matches(self.pat(), text@),
    {
        let searched = self.regex.search_with_param(
            text,
            0,
            text.len(),
            onig::SearchOptions::SEARCH_OPTION_NONE,
            None,
            onig::MatchParam::default(),
        );
        match searched {
            Ok(pos) => pos.is_some(),
            Err(_) => false,
        }
    }
}

} // verus!
