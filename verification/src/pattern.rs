//! Regular expressions, as the `regex` crate compiles and runs them.
//!
//! Nothing here is proved. The library leaves to the `regex` crate what a
//! pattern means, and gives that meaning names by which the contracts of the
//! rules can speak of it.

use vstd::prelude::*;

verus! {

#[verifier::external_type_specification]
#[verifier::external_body]
pub struct ExRegex(regex::Regex);

#[verifier::external_type_specification]
#[verifier::external_body]
pub struct ExRegexError(regex::Error);

/// Whether `Regex::new` accepts `pattern`: whether the pattern is well formed
/// and its program stays within the size limit that the crate sets by default.
pub uninterp spec fn pattern_compiles(pattern: Seq<char>) -> bool;

/// Whether the regular expression that `Regex::new` makes of `pattern` finds a
/// match somewhere in `text`.
pub uninterp spec fn pattern_matches(pattern: Seq<char>, text: Seq<char>) -> bool;

/// Whether `Regex::is_match` finds a match of `regex` somewhere in `text`.
pub uninterp spec fn regex_accepts(regex: regex::Regex, text: Seq<char>) -> bool;

/// Calls `Regex::new`. Taken on trust: that it succeeds on the patterns of
/// `pattern_compiles` and on no others, and that whether the regular
/// expression it returns matches in a text depends on the pattern and the
/// text alone, which is what `pattern_matches` names.
#[verifier::external_body]
pub(crate) fn compile(pattern: &str) -> (compiled: Result<regex::Regex, regex::Error>)
    ensures
        compiled is Ok <==> pattern_compiles(pattern@),
        compiled matches Ok(regex) ==> forall|text: Seq<char>| #[trigger]
            regex_accepts(regex, text) == pattern_matches(pattern@, text),
{
    regex::Regex::new(pattern)
}

/// Calls `Regex::is_match`. Taken on trust: that its answer depends on the
/// regular expression and the text alone, which is what `regex_accepts`
/// names.
#[verifier::external_body]
pub(crate) fn is_match(regex: &regex::Regex, text: &str) -> (found: bool)
    ensures
        found == regex_accepts(*regex, text@),
{
    regex.is_match(text)
}

} // verus!
