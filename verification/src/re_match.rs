//! The AS-path regular-expression filter, through the `regex` crate.
//!
//! Whether a pattern compiles, and whether a compiled pattern matches a byte
//! string, depend on the pattern and the string alone; the two names below
//! stand for those two results, and the wrappers tie the crate's answers to
//! them.

use vstd::prelude::*;

verus! {

/// Whether `regex::bytes::Regex::new` accepts the pattern.
pub uninterp spec fn regex_valid(pattern: Seq<char>) -> bool;

/// Whether the pattern matches the byte string, as `Regex::is_match` decides.
pub uninterp spec fn regex_match(pattern: Seq<char>, text: Seq<u8>) -> bool;

/// Relies on regex::bytes::Regex::new: compiling the same pattern either
/// always succeeds or always fails.
#[verifier::external_body]
pub(crate) fn regex_is_valid(pattern: &str) -> (r: bool)
    ensures
        r == regex_valid(pattern@),
{
    regex::bytes::Regex::new(pattern).is_ok()
}

/// Relies on regex::bytes::Regex::new and Regex::is_match: the answer is a
/// function of the pattern and the haystack alone; `None` exactly when the
/// pattern does not compile.
#[verifier::external_body]
pub(crate) fn regex_try_match(pattern: &str, text: &[u8]) -> (r: Option<bool>)
    ensures
        r is Some <==> regex_valid(pattern@),
        r matches Some(b) ==> b == regex_match(pattern@, text@),
{
    regex::bytes::Regex::new(pattern).ok().map(|re| re.is_match(text))
}

} // verus!
