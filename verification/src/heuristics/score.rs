//! The waste score: the area of the packing's bounding box not covered by
//! the packed rectangles themselves. Lower is better; zero means the packing
//! tiles its bounding box exactly.

use vstd::prelude::*;
use vstd::set_lib::lemma_len_subset;
use crate::geometry::Rect;
use crate::geometry::all_wf;
use crate::geometry::bbox_spec;
use crate::geometry::sum_areas;
use crate::geometry::sum_heights;
use crate::geometry::sum_widths;
use crate::tiling::lemma_bbox_encloses;
use crate::tiling::lemma_bbox_within;
use crate::tiling::lemma_cells_area;
use crate::tiling::lemma_contains_cells;
use crate::tiling::lemma_packed_area_bounded;
use crate::traits::PackingHeuristic;
use crate::traits::PackingHeuristicScore;
use crate::traits::outer_bound;
use crate::traits::scoreable_prefix;

verus! {

/// The waste of a packing: the area of its bounding box minus the summed
/// areas of its rectangles; zero for an empty packing.
pub open spec fn waste(s: Seq<Rect>) -> int {
    if s.len() == 0 {
        0
    } else {
        bbox_spec(s).spec_area() - sum_areas(s)
    }
}

/// The machine limits under which the waste can be computed in `i32`: every
/// rectangle is well formed with an `i32` area, the summed areas fit, and so
/// does the bounding box area.
pub open spec fn score_input_ok(s: Seq<Rect>) -> bool {
    &&& forall|i: int| 0 <= i < s.len() ==> (#[trigger] s[i]).wf() && s[i].area_fits()
    &&& sum_areas(s) <= i32::MAX
    &&& s.len() > 0 ==> bbox_spec(s).area_fits()
}

/// A well-formed rectangle's area is not negative.
pub proof fn lemma_area_nonneg(r: Rect)
    requires
        r.wf(),
    ensures
        r.spec_area() >= 0,
{
    lemma_cells_area(r);
}

/// Summed areas of well-formed rectangles are not negative.
pub proof fn lemma_sum_areas_nonneg(s: Seq<Rect>)
    requires
        all_wf(s),
    ensures
        sum_areas(s) >= 0,
    decreases s.len(),
{
    if s.len() > 0 {
        assert(all_wf(s.drop_last()));
        lemma_sum_areas_nonneg(s.drop_last());
        lemma_area_nonneg(s.last());
    }
}

/// A prefix of well-formed rectangles never sums to more than the whole.
pub proof fn lemma_sum_areas_prefix(s: Seq<Rect>, i: int)
    requires
        all_wf(s),
        0 <= i <= s.len(),
    ensures
        sum_areas(s.subrange(0, i)) <= sum_areas(s),
    decreases s.len() - i,
{
    if i == s.len() {
        assert(s.subrange(0, i) =~= s);
    } else {
        lemma_sum_areas_prefix(s, i + 1);
        assert(s.subrange(0, i + 1).drop_last() =~= s.subrange(0, i));
        assert(s.subrange(0, i + 1).last() == s[i]);
        lemma_area_nonneg(s[i]);
    }
}

/// The waste of a packing within the machine limits fits in `i32`.
pub proof fn lemma_waste_in_range(s: Seq<Rect>)
    requires
        score_input_ok(s),
    ensures
        i32::MIN <= waste(s) <= i32::MAX,
{
    if s.len() > 0 {
        assert(all_wf(s));
        lemma_sum_areas_nonneg(s);
        lemma_bbox_encloses(s);
        lemma_area_nonneg(bbox_spec(s));
    }
}

/// Calculates the waste score of the given packing: the area of its
/// bounding box minus the summed areas of its rectangles.
pub fn score(packing: &Vec<Rect>) -> (r: i32)
    requires
        score_input_ok(packing@),
    ensures
        r == waste(packing@),
{
    if packing.len() == 0 {
        return 0;
    }
    let bounds = Rect::bbox(packing);
    proof {
        lemma_bbox_encloses(packing@);
    }

    let mut rects_area: i32 = 0;
    proof {
        assert(packing@.subrange(0, 0) =~= Seq::<Rect>::empty());
    }
    for i in 0..packing.len()
        invariant
            score_input_ok(packing@),
            rects_area == sum_areas(packing@.subrange(0, i as int)),
    {
        proof {
            assert(packing@.subrange(0, i + 1 as int).drop_last() =~= packing@.subrange(
                0,
                i as int,
            ));
            assert(packing@.subrange(0, i + 1 as int).last() == packing@[i as int]);
            assert(all_wf(packing@.subrange(0, i + 1 as int)));
            assert(all_wf(packing@.subrange(0, i as int)));
            lemma_sum_areas_nonneg(packing@.subrange(0, i as int));
            lemma_sum_areas_prefix(packing@, i + 1);
        }
        rects_area = rects_area + packing[i].area();
    }
    proof {
        assert(packing@.subrange(0, packing@.len() as int) =~= packing@);
        assert(all_wf(packing@));
        lemma_sum_areas_nonneg(packing@);
        lemma_bbox_encloses(packing@);
        lemma_area_nonneg(bbox_spec(packing@));
    }
    bounds.area() - rects_area
}

/// The heuristic wrapping the waste [`score`]. Lower scores are better.
pub struct ScorePackingHeuristic;

impl PackingHeuristic for ScorePackingHeuristic {
    type Score = i32;

    open spec fn valid_input(&self, packing: Seq<Rect>) -> bool {
        score_input_ok(packing)
    }

    open spec fn score_spec(&self, packing: Seq<Rect>) -> i32 {
        waste(packing) as i32
    }

    fn score(&self, packing: &Vec<Rect>) -> (r: i32) {
        proof {
            lemma_waste_in_range(packing@);
        }
        score(packing)
    }
}

impl PackingHeuristicScore<ScorePackingHeuristic> for i32 {
    open spec fn better_spec(&self, other: &Self) -> bool {
        *self < *other
    }

    fn is_better_than(&self, other: &Self) -> (r: bool) {
        *self < *other
    }

    fn best(scores: &Vec<i32>) -> (r: Option<usize>) {
        if scores.len() == 0 {
            return None;
        }
        let mut besti: usize = 0;
        for idx in 1..scores.len()
            invariant
                besti < idx <= scores@.len(),
                forall|k: int| 0 <= k < idx ==> !(scores@[k] < scores@[besti as int]),
                forall|j: int| 0 <= j < besti ==> scores@[besti as int] < scores@[j],
        {
            if scores[idx] < scores[besti] {
                besti = idx;
            }
        }
        Some(besti)
    }
}

/// Every partial arrangement a packing run builds inside the outer search
/// bound is an acceptable input for the waste score, provided the outer
/// bound itself has an `i32` area. This discharges the scoring obligation
/// of [`crate::algorithms::iterative_random::IterativeRandomPackingAlgorithm`]
/// when it is driven by [`ScorePackingHeuristic`].
pub proof fn lemma_score_accepts_prefixes(input: Seq<Rect>)
    requires
        0 <= sum_widths(input),
        sum_widths(input) <= i32::MAX,
        0 <= sum_heights(input),
        sum_heights(input) <= i32::MAX,
        sum_widths(input) * sum_heights(input) <= i32::MAX,
    ensures
        forall|s: Seq<Rect>| scoreable_prefix(input, s) ==> #[trigger] score_input_ok(s),
{
    let ob = outer_bound(input);
    assert forall|s: Seq<Rect>| scoreable_prefix(input, s) implies #[trigger] score_input_ok(
        s,
    ) by {
        assert(ob.wf());
        assert(ob.spec_area() == sum_widths(input) * sum_heights(input));
        lemma_cells_area(ob);
        assert forall|i: int| 0 <= i < s.len() implies (#[trigger] s[i]).wf()
            && s[i].area_fits() by {
            lemma_cells_area(s[i]);
            lemma_contains_cells(ob, s[i]);
            lemma_len_subset(crate::tiling::cells(s[i]), crate::tiling::cells(ob));
        }
        lemma_packed_area_bounded(s, ob);
        if s.len() > 0 {
            lemma_bbox_encloses(s);
            lemma_bbox_within(s, ob);
            lemma_cells_area(bbox_spec(s));
            lemma_contains_cells(ob, bbox_spec(s));
            lemma_len_subset(crate::tiling::cells(bbox_spec(s)), crate::tiling::cells(ob));
        }
    }
}

} // verus!
