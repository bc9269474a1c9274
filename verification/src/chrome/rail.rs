//! The rail's engraved scale: how many detents a span carries.

use vstd::prelude::*;

verus! {

/// Detents engraved into a span that is not small and integral.
pub const DEFAULT_DETENTS: u16 = 11;

/// Widest integral span that still gets one detent per integer.
pub const MAX_INTEGRAL_SPAN: u16 = 23;

/// Detents of an integral span from `lo` to `hi`: one per integer, both ends
/// included, for spans of one to twenty-three; eleven otherwise.
pub open spec fn integral_detents(lo: u16, hi: u16) -> u16 {
    if lo < hi && hi - lo <= MAX_INTEGRAL_SPAN {
        (hi - lo + 1) as u16
    } else {
        DEFAULT_DETENTS
    }
}

/// Default detent count of a `u16` rail spanning `lo..=hi`.
pub fn default_detents(lo: u16, hi: u16) -> (d: u16)
    ensures
        d == integral_detents(lo, hi),
        d >= 2,
{
    if lo < hi && hi - lo <= MAX_INTEGRAL_SPAN {
        hi - lo + 1
    } else {
        DEFAULT_DETENTS
    }
}

/// A small integral span puts a detent on every integer of its scale: the
/// detents are evenly one unit apart and land on both ends.
pub proof fn lemma_small_spans_detent_every_integer(lo: u16, hi: u16)
    requires
        lo < hi,
        hi - lo <= MAX_INTEGRAL_SPAN,
    ensures
        integral_detents(lo, hi) - 1 == hi - lo,
{
}

} // verus!
