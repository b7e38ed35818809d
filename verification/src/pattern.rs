//! Patterns for leaving sources out, as the crate `regex` compiles and
//! matches them.

use vstd::prelude::*;

verus! {

/// `regex::Regex`, a compiled pattern. Nothing is known of what is inside.
#[verifier::external_type_specification]
#[verifier::external_body]
pub struct ExRegex(regex::Regex);

/// Whether `regex::Regex::is_match` finds a match for the pattern anywhere
/// in the text. No more is claimed of it here than that it depends on the
/// compiled pattern and the text alone.
pub uninterp spec fn pattern_matches(pattern: regex::Regex, text: Seq<char>) -> bool;

/// Calls `regex::Regex::is_match`, which returns true if and only if there
/// is a match for the pattern anywhere in `text`.
#[verifier::external_body]
pub(crate) fn is_match(pattern: &regex::Regex, text: &str) -> (r: bool)
    ensures
        r == pattern_matches(*pattern, text@),
{
    pattern.is_match(text)
}

} // verus!
