use vstd::prelude::*;

use regex::Regex;

verus! {

#[verifier::external_type_specification]
#[verifier::external_body]
pub struct ExRegex(Regex);

/// Whether `regex::Regex::new` accepts a pattern (it is valid and its
/// compiled form fits the default size limit).
pub uninterp spec fn pattern_compiles(pattern: Seq<char>) -> bool;

/// Whether the regular expression compiled from `pattern` matches somewhere in `haystack`.
pub uninterp spec fn pattern_matches(pattern: Seq<char>, haystack: Seq<char>) -> bool;

/// A compiled regular expression together with the pattern it was compiled
/// from. Only `compile_pattern` builds one, pairing `regex::Regex::new(p)`
/// with `p`.
#[derive(Debug)]
pub struct TextFilter {
    pattern: String,
    regex: Regex,
}

/// Compiles `pattern` with `regex::Regex::new` and pairs the expression
/// with the pattern; the contract states that pairing and names whether the
/// pattern compiles.
#[verifier::external_body]
fn compile_pattern(pattern: &str) -> (filter: Option<TextFilter>)
    ensures
        filter is Some <==> pattern_compiles(pattern@),
        filter matches Some(f) ==> f.pattern() == pattern@,
{
    match Regex::new(pattern) {
        Ok(regex) => Some(TextFilter { pattern: pattern.to_string(), regex }),
        Err(_) => None,
    }
}

impl TextFilter {
    /// The pattern this filter was compiled from.
    pub closed spec fn pattern(&self) -> Seq<char> {
        self.pattern@
    }

    /// Compiles a filter; `None` when the pattern is not a valid regular expression.
    pub fn new(pattern: &str) -> (filter: Option<TextFilter>)
        ensures
            filter is Some <==> pattern_compiles(pattern@),
            filter matches Some(f) ==> f.pattern() == pattern@,
    {
        compile_pattern(pattern)
    }

    /// Calls `regex::Regex::is_match` on the compiled expression: the
    /// contract states that it answers whether the expression compiled from
    /// this filter's pattern matches somewhere in `haystack`.
    #[verifier::external_body]
    pub(crate) fn is_match(&self, haystack: &str) -> (found: bool)
        ensures
            found == pattern_matches(self.pattern(), haystack@),
    {
        self.regex.is_match(haystack)
    }
}

} // verus!
