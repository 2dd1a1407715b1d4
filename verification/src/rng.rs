//! Draws from the ambient thread-local random source. Each wrapper makes one
//! call into the `rand` crate; nothing more is assumed of the values than
//! the bounds that `rand` documents.

use vstd::prelude::*;
use rand::Rng;
use rand::seq::SliceRandom;
use crate::geometry::Rect;

verus! {

/// Relies on `rand::thread_rng` and `rand::Rng::gen_range` over the
/// half-open range `lo..hi`: the sample lies in the range; an empty range
/// panics, so it is excluded here.
#[verifier::external_body]
pub(crate) fn gen_range_i32(lo: i32, hi: i32) -> (r: i32)
    requires
        lo < hi,
    ensures
        lo <= r < hi,
{
    rand::thread_rng().gen_range(lo..hi)
}

/// Relies on `rand::thread_rng` and `rand::Rng::gen_range` over the
/// half-open range `lo..hi`: the sample lies in the range; an empty range
/// panics, so it is excluded here.
#[verifier::external_body]
pub(crate) fn gen_range_usize(lo: usize, hi: usize) -> (r: usize)
    requires
        lo < hi,
    ensures
        lo <= r < hi,
{
    rand::thread_rng().gen_range(lo..hi)
}

/// Relies on `rand::seq::SliceRandom::shuffle` (with `rand::thread_rng`): a
/// Fisher-Yates pass of in-place swaps, so the result holds exactly the same
/// rectangles in some order.
#[verifier::external_body]
pub(crate) fn shuffle_rects(rects: &mut Vec<Rect>)
    ensures
        final(rects)@.len() == old(rects)@.len(),
        final(rects)@.to_multiset() == old(rects)@.to_multiset(),
{
    rects.shuffle(&mut rand::thread_rng())
}

} // verus!
