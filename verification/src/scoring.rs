//! The similarity scorer and the case folding used by resolution.
//!
//! Scores are carried as the IEEE-754 bit patterns of the non-negative
//! doubles that `strsim::jaro_winkler` returns. For non-negative doubles the
//! unsigned order of the bit patterns agrees with the order of the values,
//! so comparing bit patterns against `CUTOFF_BITS` is the same comparison the
//! scorer's callers would make on the scores themselves.

use vstd::prelude::*;

verus! {

/// The Jaro-Winkler similarity of `a` and `b`, encoded as the bit pattern of
/// the double that `strsim::jaro_winkler(a, b)` returns. The score depends on
/// the two character sequences alone.
pub uninterp spec fn jw_bits(a: Seq<char>, b: Seq<char>) -> u64;

/// The Unicode lowercase form of `s`, as `str::to_lowercase` computes it.
/// The result depends on the characters alone.
pub uninterp spec fn lower_of(s: Seq<char>) -> Seq<char>;

/// Bit pattern of the double 1, the largest score the scorer can produce.
pub const ONE_BITS: u64 = 0x3FF0000000000000;

/// Bit pattern of the double 3/4, the fixed similarity cutoff a candidate
/// must reach to count as a fuzzy match.
pub const CUTOFF_BITS: u64 = 0x3FE8000000000000;

/// Relies on `strsim::jaro_winkler`: a pure function of its two arguments
/// whose result always lies between 0 and 1 inclusive, so its bit pattern is
/// at most `ONE_BITS` and never a NaN.
#[verifier::external_body]
pub(crate) fn jaro_winkler_bits(a: &str, b: &str) -> (r: u64)
    ensures
        r == jw_bits(a@, b@),
        r <= ONE_BITS,
{
    strsim::jaro_winkler(a, b).to_bits()
}

/// Relies on `str::to_lowercase`: returns the Unicode lowercase equivalent
/// of the string, a pure function of its characters.
#[verifier::external_body]
pub(crate) fn lowercase(s: &str) -> (r: String)
    ensures
        r@ == lower_of(s@),
{
    s.to_lowercase()
}

} // verus!
