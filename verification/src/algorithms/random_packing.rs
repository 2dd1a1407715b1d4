//! Fully randomized packing: shuffle, then place each rectangle at random
//! positions until one sticks, with a bounded number of tries per slot.

use vstd::prelude::*;
use vstd::seq_lib::group_to_multiset_ensures;
use crate::geometry::Rect;
use crate::geometry::all_wf;
use crate::geometry::lemma_sum_heights_nonneg;
use crate::geometry::lemma_sum_heights_prefix;
use crate::geometry::lemma_sum_widths_nonneg;
use crate::geometry::lemma_sum_widths_prefix;
use crate::geometry::pairwise_disjoint;
use crate::geometry::lemma_sizes_of_multiset;
use crate::geometry::sizes_drawn_from;
use crate::geometry::sizes_of;
use crate::geometry::sum_heights;
use crate::geometry::sum_widths;
use crate::rng::gen_range_i32;
use crate::rng::shuffle_rects;
use crate::traits::PackingAlgorithm;
use crate::traits::outer_bound;

verus! {

/// Inputs the randomized packers accept: well-formed rectangles whose
/// summed widths and heights fit in `i32`, each strictly narrower and
/// shorter than those sums, so that every random placement range is
/// non-empty.
pub open spec fn random_pack_req(rects: Seq<Rect>) -> bool {
    &&& all_wf(rects)
    &&& sum_widths(rects) <= i32::MAX
    &&& sum_heights(rects) <= i32::MAX
    &&& forall|i: int|
        0 <= i < rects.len() ==> (#[trigger] rects[i]).spec_width() < sum_widths(rects) && rects[i].spec_height() < sum_heights(rects)
}

/// Shuffles the buffer, then walks it slot by slot, sampling up to 100
/// random positions inside the outer search bound for each rectangle and
/// fixing the first that overlaps no already-fixed one. Fails as soon as
/// one slot exhausts its 100 tries, leaving the buffer partially shuffled
/// and placed — but always of the original length and sizes, so a caller
/// can refill it and retry.
pub struct RandomPackingAlgorithm;

impl PackingAlgorithm for RandomPackingAlgorithm {
    open spec fn pack_req(&self, rects: Seq<Rect>) -> bool {
        random_pack_req(rects)
    }

    open spec fn packed(&self, rects: Seq<Rect>, result: Seq<Rect>, ok: bool) -> bool {
        &&& rects.len() == 0 ==> ok
        &&& sizes_of(result).to_multiset() == sizes_of(rects).to_multiset()
        &&& sizes_drawn_from(rects, result)
        &&& all_wf(result)
        &&& ok ==> forall|i: int|
            0 <= i < result.len() ==> outer_bound(rects).spec_contains(#[trigger] result[i])
    }

    fn pack(&self, rects: &mut Vec<Rect>) -> (ok: bool) {
        let ghost input: Seq<Rect> = rects@;

        let mut sw: i32 = 0;
        let mut sh: i32 = 0;
        proof {
            assert(rects@.subrange(0, 0) =~= Seq::<Rect>::empty());
        }
        for i in 0..rects.len()
            invariant
                rects@ == input,
                random_pack_req(input),
                sw == sum_widths(input.subrange(0, i as int)),
                sh == sum_heights(input.subrange(0, i as int)),
        {
            proof {
                assert(input.subrange(0, i + 1 as int).drop_last() =~= input.subrange(0, i as int));
                assert(input.subrange(0, i + 1 as int).last() == input[i as int]);
                assert(all_wf(input.subrange(0, i as int)));
                assert(all_wf(input.subrange(0, i + 1 as int)));
                lemma_sum_widths_nonneg(input.subrange(0, i as int));
                lemma_sum_widths_prefix(input, i + 1);
                lemma_sum_heights_nonneg(input.subrange(0, i as int));
                lemma_sum_heights_prefix(input, i + 1);
            }
            sw = sw + rects[i].width();
            sh = sh + rects[i].height();
        }
        proof {
            assert(input.subrange(0, input.len() as int) =~= input);
        }

        shuffle_rects(rects);
        proof {
            broadcast use group_to_multiset_ensures;

            lemma_sizes_of_multiset(rects@, input);

            assert forall|i: int| 0 <= i < rects@.len() implies exists|j: int|
                0 <= j < input.len() && (#[trigger] rects@[i]).spec_width() == (
                #[trigger] input[j]).spec_width() && rects@[i].spec_height()
                == input[j].spec_height() by {
                assert(rects@.to_multiset().contains(rects@[i]));
                assert(input.to_multiset().count(rects@[i]) > 0);
                assert(input.contains(rects@[i]));
                let j = choose|j: int| 0 <= j < input.len() && input[j] == rects@[i];
                assert(0 <= j < input.len() && rects@[i].spec_width() == input[j].spec_width()
                    && rects@[i].spec_height() == input[j].spec_height());
            }
        }

        let n = rects.len();
        let mut i: usize = 0;
        while i < n
            invariant
                input == old(rects)@,
                random_pack_req(input),
                rects@.len() == input.len(),
                n == input.len(),
                i <= n,
                sw == sum_widths(input),
                sh == sum_heights(input),
                sizes_drawn_from(input, rects@),
                sizes_of(rects@).to_multiset() == sizes_of(input).to_multiset(),
                all_wf(rects@),
                pairwise_disjoint(rects@.subrange(0, i as int)),
                forall|k: int|
                    0 <= k < i ==> outer_bound(input).spec_contains(#[trigger] rects@[k]),
            decreases n - i,
        {
            let mut placed = false;
            let mut tries: usize = 0;
            while tries < 100 && !placed
                invariant
                    input == old(rects)@,
                    random_pack_req(input),
                    rects@.len() == input.len(),
                    i < input.len(),
                    sw == sum_widths(input),
                    sh == sum_heights(input),
                    sizes_drawn_from(input, rects@),
                    sizes_of(rects@).to_multiset() == sizes_of(input).to_multiset(),
                    all_wf(rects@),
                    pairwise_disjoint(rects@.subrange(0, i as int)),
                    forall|k: int|
                        0 <= k < i ==> outer_bound(input).spec_contains(#[trigger] rects@[k]),
                    placed ==> pairwise_disjoint(rects@.subrange(0, i + 1 as int)),
                    placed ==> outer_bound(input).spec_contains(rects@[i as int]),
                decreases 100 - tries,
            {
                proof {
                    assert(rects@[i as int].spec_width() < sum_widths(input) && rects@[i as int].spec_height()
                        < sum_heights(input));
                }
                let width = rects[i].width();
                let height = rects[i].height();
                let x1 = gen_range_i32(0, sw - width);
                let y1 = gen_range_i32(0, sh - height);
                let cand = Rect { x1, y1, x2: x1 + width, y2: y1 + height };

                let mut ok_place = true;
                for j in 0..i
                    invariant
                        rects@.len() == input.len(),
                        i < input.len(),
                        ok_place == (forall|k: int|
                            0 <= k < j ==> !(cand.spec_overlaps(#[trigger] rects@[k]))),
                {
                    if cand.overlaps(&rects[j]) {
                        ok_place = false;
                    }
                }

                if ok_place {
                    let ghost before: Seq<Rect> = rects@;
                    rects[i] = cand;
                    placed = true;
                    proof {
                        assert(rects@.subrange(0, i as int) =~= before.subrange(0, i as int));
                        assert(cand.spec_width() == before[i as int].spec_width()
                            && cand.spec_height() == before[i as int].spec_height());
                        assert(sizes_of(rects@) =~= sizes_of(before)) by {
                            assert forall|k: int| 0 <= k < rects@.len() implies sizes_of(
                                rects@,
                            )[k] == sizes_of(before)[k] by {
                                if k != i {
                                    assert(rects@[k] == before[k]);
                                }
                            }
                        }
                        assert(sizes_drawn_from(input, rects@)) by {
                            assert forall|k: int| 0 <= k < rects@.len() implies exists|j: int|
                                0 <= j < input.len() && (#[trigger] rects@[k]).spec_width() == (
                                #[trigger] input[j]).spec_width() && rects@[k].spec_height()
                                == input[j].spec_height() by {
                                if k == i {
                                    let j = choose|j: int|
                                        0 <= j < input.len() && (
                                        #[trigger] input[j]).spec_width()
                                            == before[i as int].spec_width()
                                            && input[j].spec_height()
                                            == before[i as int].spec_height();
                                    assert(rects@[k].spec_width() == input[j].spec_width()
                                        && rects@[k].spec_height() == input[j].spec_height());
                                } else {
                                    assert(rects@[k] == before[k]);
                                }
                            }
                        }
                        assert forall|p: int, q: int|
                            0 <= p < i + 1 && 0 <= q < i + 1 && p != q implies !(
                        #[trigger] rects@.subrange(0, i + 1 as int)[p].spec_overlaps(
                            rects@.subrange(0, i + 1 as int)[q],
                        )) by {
                            let sub = rects@.subrange(0, i + 1 as int);
                            if p < i && q < i {
                                assert(rects@.subrange(0, i as int)[p] == sub[p]);
                                assert(rects@.subrange(0, i as int)[q] == sub[q]);
                            } else if q == i {
                                assert(sub[q] == cand && sub[p] == rects@[p]);
                            } else {
                                assert(sub[p] == cand && sub[q] == rects@[q]);
                            }
                        }
                    }
                }
                tries += 1;
            }
            if !placed {
                return false;
            }
            i += 1;
        }
        proof {
            assert(rects@.subrange(0, input.len() as int) =~= rects@);
        }
        true
    }
}

} // verus!
