//! Heuristic-guided randomized packing: each slot keeps the best-scoring of
//! several random placements of the largest remaining rectangle.

use vstd::prelude::*;
use crate::geometry::Rect;
use crate::geometry::all_wf;
use crate::geometry::lemma_sum_heights_nonneg;
use crate::geometry::lemma_sum_heights_prefix;
use crate::geometry::lemma_sum_widths_nonneg;
use crate::geometry::lemma_sum_widths_prefix;
use crate::geometry::lemma_swap_to_multiset;
use crate::geometry::pairwise_disjoint;
use crate::geometry::sizes_drawn_from;
use crate::geometry::sizes_of;
use crate::geometry::sum_heights;
use crate::geometry::sum_widths;
use crate::rng::gen_range_i32;
use crate::traits::PackingAlgorithm;
use crate::traits::PackingHeuristic;
use crate::traits::PackingHeuristicScore;
use crate::traits::outer_bound;
use crate::traits::scoreable_prefix;

verus! {

/// Walks the slots in order; at each slot swaps in the largest-area
/// rectangle of the unprocessed suffix, samples `trials_per_iteration`
/// random positions for it inside the outer search bound, scores the
/// resulting prefix with the heuristic, and keeps the best-scoring valid
/// candidate (the first found wins ties: a candidate replaces the incumbent
/// only on a strictly better score). A slot whose every trial overlapped
/// the fixed prefix fails the whole pack at once — in particular,
/// `trials_per_iteration == 0` always fails on a non-empty buffer, since no
/// candidate is ever evaluated.
pub struct IterativeRandomPackingAlgorithm<H: PackingHeuristic> {
    pub heuristic: H,
    pub trials_per_iteration: usize,
}

impl<H: PackingHeuristic> PackingAlgorithm for IterativeRandomPackingAlgorithm<H> {
    open spec fn pack_req(&self, rects: Seq<Rect>) -> bool {
        &&& all_wf(rects)
        &&& forall|i: int| 0 <= i < rects.len() ==> (#[trigger] rects[i]).area_fits()
        &&& sum_widths(rects) <= i32::MAX
        &&& sum_heights(rects) <= i32::MAX
        &&& self.trials_per_iteration > 0 ==> forall|i: int|
            0 <= i < rects.len() ==> (#[trigger] rects[i]).spec_width() < sum_widths(rects)
                && rects[i].spec_height() < sum_heights(rects)
        &&& forall|s: Seq<Rect>|
            scoreable_prefix(rects, s) ==> #[trigger] self.heuristic.valid_input(s)
    }

    open spec fn packed(&self, rects: Seq<Rect>, result: Seq<Rect>, ok: bool) -> bool {
        &&& rects.len() == 0 ==> ok
        &&& sizes_of(result).to_multiset() == sizes_of(rects).to_multiset()
        &&& sizes_drawn_from(rects, result)
        &&& all_wf(result)
        &&& ok ==> forall|i: int|
            0 <= i < result.len() ==> outer_bound(rects).spec_contains(#[trigger] result[i])
        &&& self.trials_per_iteration == 0 && rects.len() > 0 ==> !ok
    }

    fn pack(&self, rects: &mut Vec<Rect>) -> (ok: bool) {
        let ghost input: Seq<Rect> = rects@;

        let mut sw: i32 = 0;
        let mut sh: i32 = 0;
        proof {
            assert(rects@.subrange(0, 0) =~= Seq::<Rect>::empty());
        }
        for idx in 0..rects.len()
            invariant
                rects@ == input,
                self.pack_req(input),
                sw == sum_widths(input.subrange(0, idx as int)),
                sh == sum_heights(input.subrange(0, idx as int)),
        {
            proof {
                assert(input.subrange(0, idx + 1 as int).drop_last() =~= input.subrange(
                    0,
                    idx as int,
                ));
                assert(input.subrange(0, idx + 1 as int).last() == input[idx as int]);
                assert(all_wf(input.subrange(0, idx as int)));
                assert(all_wf(input.subrange(0, idx + 1 as int)));
                lemma_sum_widths_nonneg(input.subrange(0, idx as int));
                lemma_sum_widths_prefix(input, idx + 1);
                lemma_sum_heights_nonneg(input.subrange(0, idx as int));
                lemma_sum_heights_prefix(input, idx + 1);
            }
            sw = sw + rects[idx].width();
            sh = sh + rects[idx].height();
        }
        proof {
            assert(input.subrange(0, input.len() as int) =~= input);
        }

        let n = rects.len();
        let mut i: usize = 0;
        while i < n
            invariant
                input == old(rects)@,
                self.pack_req(input),
                rects@.len() == input.len(),
                n == input.len(),
                i <= n,
                sw == sum_widths(input),
                sh == sum_heights(input),
                sizes_drawn_from(input, rects@),
                sizes_of(rects@).to_multiset() == sizes_of(input).to_multiset(),
                forall|k: int|
                    0 <= k < rects@.len() ==> (#[trigger] rects@[k]).wf()
                        && rects@[k].area_fits(),
                pairwise_disjoint(rects@.subrange(0, i as int)),
                forall|k: int|
                    0 <= k < i ==> outer_bound(input).spec_contains(#[trigger] rects@[k]),
                i > 0 ==> self.trials_per_iteration > 0,
            decreases n - i,
        {
            // pick the largest remaining rectangle, the last such on ties
            let mut rect_index: usize = i;
            let mut max_area: i32 = rects[i].area();
            let mut m: usize = i + 1;
            while m < n
                invariant
                    rects@.len() == input.len(),
                    n == input.len(),
                    i <= rect_index < m <= n,
                    forall|k: int|
                        0 <= k < rects@.len() ==> (#[trigger] rects@[k]).wf()
                            && rects@[k].area_fits(),
                    max_area == rects@[rect_index as int].spec_area(),
                    forall|k: int|
                        i <= k < m ==> (#[trigger] rects@[k]).spec_area() <= max_area,
                decreases n - m,
            {
                let a = rects[m].area();
                if a >= max_area {
                    rect_index = m;
                    max_area = a;
                }
                m += 1;
            }

            let mut best: Option<H::Score> = None;
            let mut t: usize = 0;
            while t < self.trials_per_iteration
                invariant
                    input == old(rects)@,
                    self.pack_req(input),
                    rects@.len() == input.len(),
                    n == input.len(),
                    i < n,
                    i <= rect_index < n,
                    sw == sum_widths(input),
                    sh == sum_heights(input),
                    sizes_drawn_from(input, rects@),
                    sizes_of(rects@).to_multiset() == sizes_of(input).to_multiset(),
                    forall|k: int|
                        0 <= k < rects@.len() ==> (#[trigger] rects@[k]).wf()
                            && rects@[k].area_fits(),
                    pairwise_disjoint(rects@.subrange(0, i as int)),
                    forall|k: int|
                        0 <= k < i ==> outer_bound(input).spec_contains(#[trigger] rects@[k]),
                    best is Some ==> self.trials_per_iteration > 0,
                    best is Some ==> pairwise_disjoint(rects@.subrange(0, i + 1 as int))
                        && outer_bound(input).spec_contains(rects@[i as int]),
                decreases self.trials_per_iteration - t,
            {
                proof {
                    assert(rects@[rect_index as int].spec_width() < sum_widths(input)
                        && rects@[rect_index as int].spec_height() < sum_heights(input));
                }
                let width = rects[rect_index].width();
                let height = rects[rect_index].height();
                let x1 = gen_range_i32(0, sw - width);
                let y1 = gen_range_i32(0, sh - height);
                let cand = Rect { x1, y1, x2: x1 + width, y2: y1 + height };

                let mut overlapping = false;
                let mut j: usize = 0;
                while j < i
                    invariant
                        rects@.len() == input.len(),
                        i < n <= rects@.len(),
                        j <= i,
                        overlapping == !(forall|k: int|
                            0 <= k < j ==> !(cand.spec_overlaps(#[trigger] rects@[k]))),
                    decreases i - j,
                {
                    if cand.overlaps(&rects[j]) {
                        overlapping = true;
                    }
                    j += 1;
                }

                if !overlapping {
                    let ghost before: Seq<Rect> = rects@;
                    let prev_slot = rects[i];
                    rects[i] = cand;
                    proof {
                        assert(rects@.subrange(0, i as int) =~= before.subrange(0, i as int));
                        assert(cand.spec_width() == before[rect_index as int].spec_width()
                            && cand.spec_height() == before[rect_index as int].spec_height());
                        assert(sizes_drawn_from(input, rects@)) by {
                            assert forall|k: int| 0 <= k < rects@.len() implies exists|j2: int|
                                0 <= j2 < input.len() && (#[trigger] rects@[k]).spec_width() == (
                                #[trigger] input[j2]).spec_width() && rects@[k].spec_height()
                                == input[j2].spec_height() by {
                                if k == i {
                                    let j2 = choose|j2: int|
                                        0 <= j2 < input.len() && (
                                        #[trigger] input[j2]).spec_width()
                                            == before[rect_index as int].spec_width() && input[j2].spec_height()
                                            == before[rect_index as int].spec_height();
                                    assert(rects@[k].spec_width() == input[j2].spec_width()
                                        && rects@[k].spec_height() == input[j2].spec_height());
                                } else {
                                    assert(rects@[k] == before[k]);
                                }
                            }
                        }
                        assert(pairwise_disjoint(rects@.subrange(0, i + 1 as int))) by {
                            let sub = rects@.subrange(0, i + 1 as int);
                            assert forall|p: int, q: int|
                                0 <= p < sub.len() && 0 <= q < sub.len() && p != q implies !(
                            #[trigger] sub[p].spec_overlaps(sub[q])) by {
                                if p < i && q < i {
                                    assert(before.subrange(0, i as int)[p] == sub[p]);
                                    assert(before.subrange(0, i as int)[q] == sub[q]);
                                } else if q == i {
                                    assert(sub[q] == cand && sub[p] == before[p]);
                                } else {
                                    assert(sub[p] == cand && sub[q] == before[q]);
                                }
                            }
                        }
                    }

                    let mut prefix_vec: Vec<Rect> = Vec::new();
                    proof {
                        assert(rects@.subrange(0, 0) =~= Seq::<Rect>::empty());
                    }
                    let mut pj: usize = 0;
                    while pj < i + 1
                        invariant
                            rects@.len() == input.len(),
                            i < n <= rects@.len(),
                            pj <= i + 1,
                            prefix_vec@ == rects@.subrange(0, pj as int),
                        decreases i + 1 - pj,
                    {
                        proof {
                            assert(rects@.subrange(0, pj + 1 as int) =~= rects@.subrange(
                                0,
                                pj as int,
                            ).push(rects@[pj as int]));
                        }
                        prefix_vec.push(rects[pj]);
                        pj += 1;
                    }

                    proof {
                        assert(scoreable_prefix(input, prefix_vec@));
                        assert(self.heuristic.valid_input(prefix_vec@));
                    }
                    let sc = self.heuristic.score(&prefix_vec);

                    let accept = match &best {
                        None => true,
                        Some(b) => sc.is_better_than(b),
                    };
                    if accept {
                        best = Some(sc);
                        if rect_index != i {
                            let ghost before2: Seq<Rect> = rects@;
                            rects[rect_index] = prev_slot;
                            proof {
                                assert(rects@.subrange(0, i + 1 as int) =~= before2.subrange(
                                    0,
                                    i + 1 as int,
                                ));
                                assert(sizes_drawn_from(input, rects@)) by {
                                    assert forall|k: int|
                                        0 <= k < rects@.len() implies exists|j2: int|
                                        0 <= j2 < input.len() && (
                                        #[trigger] rects@[k]).spec_width() == (
                                        #[trigger] input[j2]).spec_width()
                                            && rects@[k].spec_height()
                                            == input[j2].spec_height() by {
                                        if k == rect_index {
                                            let j2 = choose|j2: int|
                                                0 <= j2 < input.len() && (
                                                #[trigger] input[j2]).spec_width() == before[i as int].spec_width() && input[j2].spec_height()
                                                    == before[i as int].spec_height();
                                            assert(rects@[k].spec_width()
                                                == input[j2].spec_width()
                                                && rects@[k].spec_height()
                                                == input[j2].spec_height());
                                        } else {
                                            assert(rects@[k] == before2[k]);
                                        }
                                    }
                                }
                                let sb = sizes_of(before);
                                lemma_swap_to_multiset(sb, i as int, rect_index as int);
                                assert(sizes_of(rects@) =~= sb.update(
                                    i as int,
                                    sb[rect_index as int],
                                ).update(rect_index as int, sb[i as int])) by {
                                    assert forall|k: int| 0 <= k < rects@.len() implies sizes_of(
                                        rects@,
                                    )[k] == sb.update(i as int, sb[rect_index as int]).update(
                                        rect_index as int,
                                        sb[i as int],
                                    )[k] by {
                                        if k == rect_index {
                                            assert(rects@[k] == before[i as int]);
                                        } else if k != i {
                                            assert(rects@[k] == before[k]);
                                        }
                                    }
                                }
                            }
                        } else {
                            proof {
                                assert(sizes_of(rects@) =~= sizes_of(before)) by {
                                    assert forall|k: int| 0 <= k < rects@.len() implies sizes_of(
                                        rects@,
                                    )[k] == sizes_of(before)[k] by {
                                        if k != i {
                                            assert(rects@[k] == before[k]);
                                        }
                                    }
                                }
                            }
                        }
                    } else {
                        rects[i] = prev_slot;
                        proof {
                            assert(rects@ =~= before);
                        }
                    }
                }
                t += 1;
            }

            if best.is_none() {
                return false;
            }
            i += 1;
        }
        proof {
            assert(rects@.subrange(0, input.len() as int) =~= rects@);
        }
        true
    }
}

} // verus!
