//! The strategy interfaces through which packing runs are assembled: packing
//! algorithms, rectangle choice strategies, and packing-quality heuristics
//! with their score types.
//!
//! Each trait pairs its executable methods with spec functions that the
//! implementations fill in, so that a caller generic over a strategy still
//! works against an exact contract.

use vstd::prelude::*;
use crate::geometry::Rect;
use crate::geometry::all_wf;
use crate::geometry::pairwise_disjoint;
use crate::geometry::sum_heights;
use crate::geometry::sum_widths;

verus! {

/// The outer search bound of a packing run: anchored at the origin, as wide
/// as all input rectangles side by side and as tall as all of them stacked,
/// so a non-overlapping layout always fits in principle. Meaningful when the
/// two sums fit in `i32`.
pub open spec fn outer_bound(input: Seq<Rect>) -> Rect {
    Rect { x1: 0, y1: 0, x2: sum_widths(input) as i32, y2: sum_heights(input) as i32 }
}

/// A partial arrangement that a packing run over `input` may ask a heuristic
/// to score: no longer than the input, well formed, pairwise disjoint, and
/// placed inside the outer search bound.
pub open spec fn scoreable_prefix(input: Seq<Rect>, s: Seq<Rect>) -> bool {
    &&& s.len() <= input.len()
    &&& all_wf(s)
    &&& pairwise_disjoint(s)
    &&& forall|i: int| 0 <= i < s.len() ==> outer_bound(input).spec_contains(#[trigger] s[i])
}

pub trait PackingAlgorithm {
    /// The inputs this algorithm accepts.
    spec fn pack_req(&self, rects: Seq<Rect>) -> bool;

    /// What this algorithm guarantees of the buffer it produced and of its
    /// success flag, beyond the disjointness that every algorithm promises.
    spec fn packed(&self, rects: Seq<Rect>, result: Seq<Rect>, ok: bool) -> bool;

    /// Attempts to find a valid packing using the given rectangles, placing
    /// them in place in the given buffer.
    ///
    /// If `true` is returned, the buffer holds pairwise non-overlapping
    /// rectangles; otherwise the buffer is in an indeterminate state and
    /// callers should refill it from a known-good copy before retrying.
    fn pack(&self, packing: &mut Vec<Rect>) -> (ok: bool)
        requires
            self.pack_req(old(packing)@),
        ensures
            final(packing)@.len() == old(packing)@.len(),
            ok ==> pairwise_disjoint(final(packing)@),
            self.packed(old(packing)@, final(packing)@, ok),
    ;
}

pub trait RectChoiceAlgorithm {
    /// The inputs this strategy accepts.
    spec fn choose_req(&self, packing: Seq<Rect>, choices: Seq<Rect>) -> bool;

    /// Which indices this strategy may return.
    spec fn chosen(&self, packing: Seq<Rect>, choices: Seq<Rect>, r: int) -> bool;

    /// Whether this strategy draws on a source of randomness.
    spec fn nondeterministic(&self) -> bool;

    /// Chooses a rectangle from among the given `choices`, potentially
    /// taking into consideration the given partial `packing`.
    fn choose_rect(&self, packing: &Vec<Rect>, choices: &Vec<Rect>) -> (r: usize)
        requires
            self.choose_req(packing@, choices@),
        ensures
            choices@.len() > 0 ==> r < choices@.len(),
            self.chosen(packing@, choices@, r as int),
    ;

    /// Returns `true` if this choice algorithm is hinted to be
    /// nondeterministic.
    fn nondeterministic_hint(&self) -> (r: bool)
        ensures
            r == self.nondeterministic(),
    ;
}

pub trait PackingHeuristic: Sized {
    type Score: PackingHeuristicScore<Self>;

    /// The packings this heuristic can score without running into machine
    /// limits.
    spec fn valid_input(&self, packing: Seq<Rect>) -> bool;

    /// The score this heuristic assigns.
    spec fn score_spec(&self, packing: Seq<Rect>) -> Self::Score;

    /// Returns the score of the given `packing`, which must be a valid
    /// (pairwise non-overlapping) packing for the score to be meaningful.
    fn score(&self, packing: &Vec<Rect>) -> (r: Self::Score)
        requires
            self.valid_input(packing@),
        ensures
            r == self.score_spec(packing@),
    ;
}

pub trait PackingHeuristicScore<H>: Sized {
    /// The strict better-than relation of this score type.
    spec fn better_spec(&self, other: &Self) -> bool;

    /// Returns true if `self` is a better score than `other`.
    fn is_better_than(&self, other: &Self) -> (r: bool)
        ensures
            r == self.better_spec(other),
    ;

    /// Returns the index of the best score, the first such index on ties.
    /// If `scores` is empty, returns `None`.
    fn best(scores: &Vec<Self>) -> (r: Option<usize>)
        ensures
            (r is Some) == (scores@.len() > 0),
            r matches Some(i) ==> i < scores@.len() && (forall|k: int|
                0 <= k < scores@.len() ==> !(#[trigger] scores@[k].better_spec(
                    &scores@[i as int],
                ))) && (forall|j: int|
                0 <= j < i as int ==> #[trigger] scores@[i as int].better_spec(&scores@[j])),
    ;
}

} // verus!
