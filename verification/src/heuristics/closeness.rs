//! The integer core of the closeness heuristic: for one rectangle of a
//! packing, how much contact length every other member contributes on each
//! of its four sides. The heuristic's floating-point normalization lives
//! outside the verified core; the contact bookkeeping it rests on is here.

use vstd::prelude::*;
use crate::geometry::Rect;
use crate::geometry::Side;
use crate::geometry::all_wf;

verus! {

/// The total contact length that the members of `s` report on `side` of
/// `a`, in order: each member contributes the length of its touch when
/// [`Rect::spec_touch_side`] attributes it to that side, and nothing
/// otherwise.
pub open spec fn contact_sum(s: Seq<Rect>, a: Rect, side: Side) -> int
    decreases s.len(),
{
    if s.len() == 0 {
        0
    } else {
        contact_sum(s.drop_last(), a, side) + if a.spec_touch_side(s.last()) == Some(side) {
            a.spec_touch_len(s.last())
        } else {
            0
        }
    }
}

/// Between well-formed rectangles the reported contact length is never
/// negative.
pub proof fn lemma_touch_len_nonneg(a: Rect, b: Rect)
    requires
        a.wf(),
        b.wf(),
    ensures
        a.spec_touch_len(b) >= 0,
{
}

/// Contact sums over well-formed rectangles are not negative.
pub proof fn lemma_contact_sum_nonneg(s: Seq<Rect>, a: Rect, side: Side)
    requires
        a.wf(),
        all_wf(s),
    ensures
        contact_sum(s, a, side) >= 0,
    decreases s.len(),
{
    if s.len() > 0 {
        assert(all_wf(s.drop_last()));
        lemma_contact_sum_nonneg(s.drop_last(), a, side);
        lemma_touch_len_nonneg(a, s.last());
    }
}

/// A prefix of well-formed rectangles never contributes more contact than
/// the whole.
pub proof fn lemma_contact_sum_prefix(s: Seq<Rect>, a: Rect, side: Side, i: int)
    requires
        a.wf(),
        all_wf(s),
        0 <= i <= s.len(),
    ensures
        contact_sum(s.subrange(0, i), a, side) <= contact_sum(s, a, side),
    decreases s.len() - i,
{
    if i == s.len() {
        assert(s.subrange(0, i) =~= s);
    } else {
        lemma_contact_sum_prefix(s, a, side, i + 1);
        assert(s.subrange(0, i + 1).drop_last() =~= s.subrange(0, i));
        assert(s.subrange(0, i + 1).last() == s[i]);
        lemma_touch_len_nonneg(a, s[i]);
    }
}

/// Sums, for each side of `a` in the order left, top, right, bottom, the
/// contact length contributed by every member of `packing` touching `a` on
/// that side. A rectangle never touches itself, so `a` may be a member of
/// `packing`.
pub fn side_contact_sums(packing: &Vec<Rect>, a: &Rect) -> (r: (i32, i32, i32, i32))
    requires
        a.wf(),
        a.diffs_fit(),
        all_wf(packing@),
        forall|i: int| 0 <= i < packing@.len() ==> (#[trigger] packing@[i]).diffs_fit(),
        contact_sum(packing@, *a, Side::Left) <= i32::MAX,
        contact_sum(packing@, *a, Side::Top) <= i32::MAX,
        contact_sum(packing@, *a, Side::Right) <= i32::MAX,
        contact_sum(packing@, *a, Side::Bottom) <= i32::MAX,
    ensures
        r.0 == contact_sum(packing@, *a, Side::Left),
        r.1 == contact_sum(packing@, *a, Side::Top),
        r.2 == contact_sum(packing@, *a, Side::Right),
        r.3 == contact_sum(packing@, *a, Side::Bottom),
{
    let mut left: i32 = 0;
    let mut top: i32 = 0;
    let mut right: i32 = 0;
    let mut bottom: i32 = 0;
    proof {
        assert(packing@.subrange(0, 0) =~= Seq::<Rect>::empty());
    }
    for i in 0..packing.len()
        invariant
            a.wf(),
            a.diffs_fit(),
            all_wf(packing@),
            forall|k: int| 0 <= k < packing@.len() ==> (#[trigger] packing@[k]).diffs_fit(),
            contact_sum(packing@, *a, Side::Left) <= i32::MAX,
            contact_sum(packing@, *a, Side::Top) <= i32::MAX,
            contact_sum(packing@, *a, Side::Right) <= i32::MAX,
            contact_sum(packing@, *a, Side::Bottom) <= i32::MAX,
            left == contact_sum(packing@.subrange(0, i as int), *a, Side::Left),
            top == contact_sum(packing@.subrange(0, i as int), *a, Side::Top),
            right == contact_sum(packing@.subrange(0, i as int), *a, Side::Right),
            bottom == contact_sum(packing@.subrange(0, i as int), *a, Side::Bottom),
    {
        proof {
            assert(packing@.subrange(0, i + 1 as int).drop_last() =~= packing@.subrange(
                0,
                i as int,
            ));
            assert(packing@.subrange(0, i + 1 as int).last() == packing@[i as int]);
            lemma_touch_len_nonneg(*a, packing@[i as int]);
            lemma_contact_sum_nonneg(packing@.subrange(0, i as int), *a, Side::Left);
            lemma_contact_sum_nonneg(packing@.subrange(0, i as int), *a, Side::Top);
            lemma_contact_sum_nonneg(packing@.subrange(0, i as int), *a, Side::Right);
            lemma_contact_sum_nonneg(packing@.subrange(0, i as int), *a, Side::Bottom);
            lemma_contact_sum_prefix(packing@, *a, Side::Left, i + 1);
            lemma_contact_sum_prefix(packing@, *a, Side::Top, i + 1);
            lemma_contact_sum_prefix(packing@, *a, Side::Right, i + 1);
            lemma_contact_sum_prefix(packing@, *a, Side::Bottom, i + 1);
        }
        match a.amount_touching(&packing[i]) {
            Some((Side::Left, amt)) => {
                left = left + amt;
            },
            Some((Side::Top, amt)) => {
                top = top + amt;
            },
            Some((Side::Right, amt)) => {
                right = right + amt;
            },
            Some((Side::Bottom, amt)) => {
                bottom = bottom + amt;
            },
            None => {},
        }
    }
    proof {
        assert(packing@.subrange(0, packing@.len() as int) =~= packing@);
    }
    (left, top, right, bottom)
}

} // verus!
