//! Case-insensitive substring matching over track metadata, built on
//! std's case folding and substring search.

use vstd::prelude::*;

verus! {

/// The characters of `s` folded to lower case, exactly as
/// `str::to_lowercase` computes them.
pub uninterp spec fn lower_of(s: Seq<char>) -> Seq<char>;

/// Whether `needle` occurs in `hay` as a contiguous run of characters.
pub open spec fn is_substring(hay: Seq<char>, needle: Seq<char>) -> bool {
    exists|i: int|
        0 <= i && i + needle.len() <= hay.len() && #[trigger] hay.subrange(
            i,
            i + needle.len() as int,
        ) == needle
}

/// Relies on str::to_lowercase: the result is a function of the
/// receiver's characters alone, and an empty string stays empty.
#[verifier::external_body]
pub(crate) fn to_lowercase(s: &str) -> (r: String)
    ensures
        r@ == lower_of(s@),
        s@.len() == 0 ==> r@.len() == 0,
{
    s.to_lowercase()
}

/// Relies on str::contains with a string pattern: it returns true
/// exactly when the pattern's characters occur contiguously in the
/// receiver (a valid UTF-8 needle can only match at character
/// boundaries).
#[verifier::external_body]
pub(crate) fn str_contains(hay: &str, needle: &str) -> (r: bool)
    ensures
        r == is_substring(hay@, needle@),
{
    hay.contains(needle)
}

} // verus!
