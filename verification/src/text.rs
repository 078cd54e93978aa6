//! Trusted bridges to std's string operations.
//!
//! The catalogs compare, search and case-fold strings. vstd gives `String`
//! equality a specification; the remaining std operations used here are
//! wrapped once each, with contracts stating what std documents of them.

use vstd::prelude::*;

verus! {

/// What `str::to_lowercase` returns: a function of the characters alone.
pub uninterp spec fn lower_of(s: Seq<char>) -> Seq<char>;

/// The characters with every blank removed.
pub open spec fn without_blanks(s: Seq<char>) -> Seq<char> {
    s.filter(|c: char| c != ' ')
}

/// Whether `needle` occurs as a contiguous run of characters in `hay`.
pub open spec fn contains_sub(hay: Seq<char>, needle: Seq<char>) -> bool {
    exists|i: int|
        0 <= i && i + needle.len() <= hay.len() && #[trigger] hay.subrange(i, i + needle.len())
            == needle
}

/// Relies on `str::eq` (via `<str as PartialEq>`): equality of string
/// slices is equality of their characters.
#[verifier::external_body]
pub fn str_eq(a: &str, b: &str) -> (r: bool)
    ensures
        r == (a@ == b@),
{
    a == b
}

/// Relies on `str::to_lowercase`: the result depends on the characters
/// alone, and an empty string stays empty.
#[verifier::external_body]
pub fn lowercase(s: &str) -> (r: String)
    ensures
        r@ == lower_of(s@),
        s@.len() == 0 ==> r@.len() == 0,
{
    s.to_lowercase()
}

/// Relies on `str::replace` with a one-blank pattern: every blank is
/// removed and all other characters stay, in order.
#[verifier::external_body]
pub fn strip_blanks(s: &str) -> (r: String)
    ensures
        r@ == without_blanks(s@),
{
    s.replace(" ", "")
}

/// Relies on `str::contains` with a `&str` pattern: true exactly when the
/// pattern matches a sub-slice. UTF-8 is self-synchronizing, so a sub-slice
/// match is a match on a contiguous run of characters.
#[verifier::external_body]
pub fn str_contains(hay: &str, needle: &str) -> (r: bool)
    ensures
        r == contains_sub(hay@, needle@),
{
    hay.contains(needle)
}

} // verus!
