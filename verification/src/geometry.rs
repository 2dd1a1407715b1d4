//! Integer geometry kernel: one-dimensional intervals and axis-aligned
//! rectangles, with overlap, containment, merging and adjacency operations.
//!
//! All coordinates are `i32`. A value is well formed (`wf`) when its lower
//! coordinates do not exceed its upper ones; the library assumes but does not
//! enforce this, so the operations state it as a precondition where their
//! result depends on it.

use vstd::prelude::*;
use vstd::set_lib::lemma_set_difference_len;
use crate::tiling::cells;
use crate::tiling::cells_of_seq;
use crate::tiling::lemma_bbox_encloses;
use crate::tiling::lemma_cells_area;
use crate::tiling::lemma_cells_of_seq_concat;
use crate::tiling::lemma_cells_of_seq_contains;
use crate::tiling::lemma_cells_push;
use crate::tiling::lemma_cells_subset_contains;
use crate::tiling::lemma_cells_update_remove;
use crate::tiling::lemma_contains_cells;
use crate::tiling::lemma_cut_out_properties;
use crate::tiling::lemma_disjoint_sum_areas;
use crate::tiling::lemma_merge_area;
use crate::tiling::lemma_overlap_monotonic;
use crate::tiling::lemma_shared_cell_overlaps;

verus! {

/// The extent of a rectangle: its width and height.
#[derive(Debug, Clone, Copy, PartialEq, Eq, Structural)]
pub struct Size {
    pub width: i32,
    pub height: i32,
}

/// A one-dimensional range from `start` to `end`, half open in spirit:
/// `len = end - start`, touching endpoints do not overlap.
#[derive(Debug, Clone, Copy, PartialEq, Eq, Structural)]
pub struct Interval {
    pub start: i32,
    pub end: i32,
}

impl Interval {
    /// Well-formed: the interval does not run backwards.
    pub open spec fn wf(self) -> bool {
        self.start <= self.end
    }

    /// The mathematical length, `end - start`.
    pub open spec fn spec_len(self) -> int {
        self.end - self.start
    }

    /// The length fits in `i32`, so the executable `len` cannot overflow.
    pub open spec fn len_fits(self) -> bool {
        i32::MIN <= self.end - self.start <= i32::MAX
    }

    /// Strict open overlap: touching endpoints do not count.
    pub open spec fn spec_overlaps(self, other: Interval) -> bool {
        self.start < other.end && self.end > other.start
    }

    /// Inclusive containment.
    pub open spec fn spec_contains(self, other: Interval) -> bool {
        self.start <= other.start && other.end <= self.end
    }

    /// The overlapping sub-interval, or a zero interval at the origin when
    /// the two do not overlap.
    pub open spec fn spec_intersection(self, other: Interval) -> Interval {
        if self.spec_overlaps(other) {
            Interval {
                start: if self.start >= other.start {
                    self.start
                } else {
                    other.start
                },
                end: if self.end <= other.end {
                    self.end
                } else {
                    other.end
                },
            }
        } else {
            Interval { start: 0, end: 0 }
        }
    }

    /// Creates an interval from `start` to `end`.
    pub fn new(start: i32, end: i32) -> (r: Interval)
        ensures
            r == (Interval { start, end }),
    {
        Interval { start, end }
    }

    /// Calculates the length of this interval.
    pub fn len(&self) -> (r: i32)
        requires
            self.len_fits(),
        ensures
            r == self.spec_len(),
    {
        self.end - self.start
    }

    /// Returns true if this interval overlaps with `other`.
    pub fn overlaps(&self, other: &Interval) -> (r: bool)
        ensures
            r == self.spec_overlaps(*other),
    {
        self.start < other.end && self.end > other.start
    }

    /// Returns true if this interval fully contains `other`.
    pub fn contains(&self, other: &Interval) -> (r: bool)
        ensures
            r == self.spec_contains(*other),
    {
        self.start <= other.start && other.end <= self.end
    }

    /// Calculates the intersection between `self` and `other`.
    pub fn intersection(&self, other: &Interval) -> (r: Interval)
        ensures
            r == self.spec_intersection(*other),
    {
        if self.overlaps(other) {
            Interval {
                start: if self.start >= other.start {
                    self.start
                } else {
                    other.start
                },
                end: if self.end <= other.end {
                    self.end
                } else {
                    other.end
                },
            }
        } else {
            Interval { start: 0, end: 0 }
        }
    }
}

/// Overlap of intervals is symmetric: `a` overlaps `b` exactly when `b`
/// overlaps `a`.
pub proof fn lemma_interval_overlaps_symmetric(a: Interval, b: Interval)
    ensures
        a.spec_overlaps(b) == b.spec_overlaps(a),
{
}

/// Containment of intervals is reflexive: every interval contains itself.
pub proof fn lemma_interval_contains_reflexive(a: Interval)
    ensures
        a.spec_contains(a),
{
}

/// The side on which one rectangle touches another.
#[derive(Debug, Clone, Copy, PartialEq, Eq, Structural)]
pub enum Side {
    Left,
    Top,
    Right,
    Bottom,
}

/// An axis-aligned rectangle spanning `x1..x2` horizontally and `y1..y2`
/// vertically.
#[derive(Debug, Clone, Copy, PartialEq, Eq, Structural)]
pub struct Rect {
    pub x1: i32,
    pub y1: i32,
    pub x2: i32,
    pub y2: i32,
}

impl Rect {
    /// Well-formed: neither axis runs backwards.
    pub open spec fn wf(self) -> bool {
        self.x1 <= self.x2 && self.y1 <= self.y2
    }

    /// The mathematical width, `x2 - x1`.
    pub open spec fn spec_width(self) -> int {
        self.x2 - self.x1
    }

    /// The mathematical height, `y2 - y1`.
    pub open spec fn spec_height(self) -> int {
        self.y2 - self.y1
    }

    /// The mathematical area, `width * height`.
    pub open spec fn spec_area(self) -> int {
        (self.x2 - self.x1) * (self.y2 - self.y1)
    }

    /// Width and height each fit in `i32`.
    pub open spec fn diffs_fit(self) -> bool {
        &&& i32::MIN <= self.x2 - self.x1 <= i32::MAX
        &&& i32::MIN <= self.y2 - self.y1 <= i32::MAX
    }

    /// Width, height and area all fit in `i32`.
    pub open spec fn area_fits(self) -> bool {
        &&& self.diffs_fit()
        &&& i32::MIN <= (self.x2 - self.x1) * (self.y2 - self.y1) <= i32::MAX
    }

    /// The horizontal extent as an interval.
    pub open spec fn spec_horz(self) -> Interval {
        Interval { start: self.x1, end: self.x2 }
    }

    /// The vertical extent as an interval.
    pub open spec fn spec_vert(self) -> Interval {
        Interval { start: self.y1, end: self.y2 }
    }

    /// True when the rectangle encloses no area.
    pub open spec fn spec_is_empty(self) -> bool {
        self.x1 == self.x2 || self.y1 == self.y2
    }

    /// Open overlap on both axes.
    pub open spec fn spec_overlaps(self, other: Rect) -> bool {
        self.spec_horz().spec_overlaps(other.spec_horz()) && self.spec_vert().spec_overlaps(
            other.spec_vert(),
        )
    }

    /// Inclusive containment on both axes.
    pub open spec fn spec_contains(self, other: Rect) -> bool {
        self.spec_horz().spec_contains(other.spec_horz()) && self.spec_vert().spec_contains(
            other.spec_vert(),
        )
    }

    /// Calculates the width of this rectangle.
    pub fn width(&self) -> (r: i32)
        requires
            self.diffs_fit(),
        ensures
            r == self.spec_width(),
    {
        self.x2 - self.x1
    }

    /// Calculates the height of this rectangle.
    pub fn height(&self) -> (r: i32)
        requires
            self.diffs_fit(),
        ensures
            r == self.spec_height(),
    {
        self.y2 - self.y1
    }

    /// Calculates the size of this rectangle.
    pub fn size(&self) -> (r: Size)
        requires
            self.diffs_fit(),
        ensures
            r.width == self.spec_width(),
            r.height == self.spec_height(),
    {
        Size { width: self.width(), height: self.height() }
    }

    /// Returns the horizontal range of this rectangle as an [`Interval`].
    pub fn horz(&self) -> (r: Interval)
        ensures
            r == self.spec_horz(),
    {
        Interval { start: self.x1, end: self.x2 }
    }

    /// Returns the vertical range of this rectangle as an [`Interval`].
    pub fn vert(&self) -> (r: Interval)
        ensures
            r == self.spec_vert(),
    {
        Interval { start: self.y1, end: self.y2 }
    }

    /// Calculates this rectangle's area.
    pub fn area(&self) -> (r: i32)
        requires
            self.area_fits(),
        ensures
            r == self.spec_area(),
    {
        (self.x2 - self.x1) * (self.y2 - self.y1)
    }

    /// Returns true if this rectangle has an area of zero.
    pub fn is_empty(&self) -> (r: bool)
        ensures
            r == self.spec_is_empty(),
    {
        self.x1 == self.x2 || self.y1 == self.y2
    }

    /// Returns true if `self` overlaps with `other`.
    pub fn overlaps(&self, other: &Rect) -> (r: bool)
        ensures
            r == self.spec_overlaps(*other),
    {
        self.horz().overlaps(&other.horz()) && self.vert().overlaps(&other.vert())
    }

    /// Returns true if `self` fully contains `other`.
    pub fn contains(&self, other: &Rect) -> (r: bool)
        ensures
            r == self.spec_contains(*other),
    {
        self.horz().contains(&other.horz()) && self.vert().contains(&other.vert())
    }

    /// Two rectangles can merge exactly when they are adjacent along one full
    /// shared edge: stacked with identical horizontal extent, or side by side
    /// with identical vertical extent.
    pub open spec fn spec_can_merge(self, other: Rect) -> bool {
        ||| ((other.y2 == self.y1 || self.y2 == other.y1) && self.x1 == other.x1 && self.x2
            == other.x2)
        ||| ((other.x2 == self.x1 || self.x2 == other.x1) && self.y1 == other.y1 && self.y2
            == other.y2)
    }

    /// The union rectangle of two mergeable rectangles.
    pub open spec fn spec_merge(self, other: Rect) -> Rect {
        Rect {
            x1: if self.x1 <= other.x1 {
                self.x1
            } else {
                other.x1
            },
            y1: if self.y1 <= other.y1 {
                self.y1
            } else {
                other.y1
            },
            x2: if self.x2 >= other.x2 {
                self.x2
            } else {
                other.x2
            },
            y2: if self.y2 >= other.y2 {
                self.y2
            } else {
                other.y2
            },
        }
    }

    /// Returns true if this rectangle could be merged with `other` into a
    /// single rectangle.
    pub fn can_merge(&self, other: &Rect) -> (r: bool)
        ensures
            r == self.spec_can_merge(*other),
    {
        let top_bottom = (other.y2 == self.y1 || self.y2 == other.y1) && self.x1 == other.x1
            && self.x2 == other.x2;
        let left_right = (other.x2 == self.x1 || self.x2 == other.x1) && self.y1 == other.y1
            && self.y2 == other.y2;

        top_bottom || left_right
    }

    /// Merges this rectangle with `other` into a single resulting rectangle,
    /// if possible. The merge is defined exactly when [`Rect::can_merge`]
    /// holds.
    pub fn merge(&self, other: &Rect) -> (r: Option<Rect>)
        ensures
            r == if self.spec_can_merge(*other) {
                Some(self.spec_merge(*other))
            } else {
                Option::<Rect>::None
            },
    {
        if self.can_merge(other) {
            Some(
                Rect {
                    x1: if self.x1 <= other.x1 {
                        self.x1
                    } else {
                        other.x1
                    },
                    y1: if self.y1 <= other.y1 {
                        self.y1
                    } else {
                        other.y1
                    },
                    x2: if self.x2 >= other.x2 {
                        self.x2
                    } else {
                        other.x2
                    },
                    y2: if self.y2 >= other.y2 {
                        self.y2
                    } else {
                        other.y2
                    },
                },
            )
        } else {
            None
        }
    }

    /// The first side, in the fixed order left, top, right, bottom, on which
    /// `other`'s closing coordinate meets this rectangle's opening coordinate
    /// (or the reverse), if any.
    pub open spec fn spec_touch_side(self, other: Rect) -> Option<Side> {
        if other.x2 == self.x1 {
            Some(Side::Left)
        } else if other.y2 == self.y1 {
            Some(Side::Top)
        } else if self.x2 == other.x1 {
            Some(Side::Right)
        } else if self.y2 == other.y1 {
            Some(Side::Bottom)
        } else {
            None
        }
    }

    /// The contact length reported for the side of [`Rect::spec_touch_side`]:
    /// the length of the intersection of the two perpendicular extents.
    pub open spec fn spec_touch_len(self, other: Rect) -> int {
        match self.spec_touch_side(other) {
            Some(Side::Left) => self.spec_vert().spec_intersection(other.spec_vert()).spec_len(),
            Some(Side::Top) => self.spec_horz().spec_intersection(other.spec_horz()).spec_len(),
            Some(Side::Right) => self.spec_vert().spec_intersection(other.spec_vert()).spec_len(),
            Some(Side::Bottom) => self.spec_horz().spec_intersection(other.spec_horz()).spec_len(),
            None => 0,
        }
    }

    /// Calculates the side and length that `other` touches this rectangle.
    ///
    /// The sides are checked in the fixed order left, top, right, bottom and
    /// only the first match is reported, so a corner-only touch is attributed
    /// to exactly one side.
    pub fn amount_touching(&self, other: &Rect) -> (r: Option<(Side, i32)>)
        requires
            self.diffs_fit(),
            other.diffs_fit(),
        ensures
            (r is Some) == (self.spec_touch_side(*other) is Some),
            r matches Some(p) ==> Some(p.0) == self.spec_touch_side(*other) && p.1
                == self.spec_touch_len(*other),
    {
        if other.x2 == self.x1 {
            Some((Side::Left, self.vert().intersection(&other.vert()).len()))
        } else if other.y2 == self.y1 {
            Some((Side::Top, self.horz().intersection(&other.horz()).len()))
        } else if self.x2 == other.x1 {
            Some((Side::Right, self.vert().intersection(&other.vert()).len()))
        } else if self.y2 == other.y1 {
            Some((Side::Bottom, self.horz().intersection(&other.horz()).len()))
        } else {
            None
        }
    }
}

/// Clamps `v` into `[lo, hi]`; meaningful only when `lo <= hi`.
pub open spec fn clamp_coord(v: i32, lo: i32, hi: i32) -> i32 {
    if v <= lo {
        lo
    } else if v >= hi {
        hi
    } else {
        v
    }
}

/// The smallest rectangle enclosing both `a` and `b`.
pub open spec fn enclosing(a: Rect, b: Rect) -> Rect {
    Rect {
        x1: if a.x1 <= b.x1 {
            a.x1
        } else {
            b.x1
        },
        y1: if a.y1 <= b.y1 {
            a.y1
        } else {
            b.y1
        },
        x2: if a.x2 >= b.x2 {
            a.x2
        } else {
            b.x2
        },
        y2: if a.y2 >= b.y2 {
            a.y2
        } else {
            b.y2
        },
    }
}

/// The minimal bounding box of a sequence of rectangles, folded left to
/// right; the all-zero rectangle for an empty sequence.
pub open spec fn bbox_spec(s: Seq<Rect>) -> Rect
    decreases s.len(),
{
    if s.len() == 0 {
        Rect { x1: 0, y1: 0, x2: 0, y2: 0 }
    } else if s.len() == 1 {
        s[0]
    } else {
        enclosing(bbox_spec(s.drop_last()), s.last())
    }
}

/// Every rectangle in the sequence is well formed.
pub open spec fn all_wf(s: Seq<Rect>) -> bool {
    forall|i: int| 0 <= i < s.len() ==> s[i].wf()
}

/// Every rectangle in the sequence encloses some area.
pub open spec fn all_nonempty(s: Seq<Rect>) -> bool {
    forall|i: int| 0 <= i < s.len() ==> !(#[trigger] s[i]).spec_is_empty()
}

/// No two distinct rectangles in the sequence overlap.
pub open spec fn pairwise_disjoint(s: Seq<Rect>) -> bool {
    forall|i: int, j: int|
        0 <= i < s.len() && 0 <= j < s.len() && i != j ==> !(#[trigger] s[i].spec_overlaps(s[j]))
}

/// No two distinct rectangles in the sequence can be merged into one.
pub open spec fn merge_closed(s: Seq<Rect>) -> bool {
    forall|i: int, j: int|
        0 <= i < s.len() && 0 <= j < s.len() && i != j ==> !(#[trigger] s[i].spec_can_merge(s[j]))
}

/// The sum of the areas of the rectangles in the sequence.
pub open spec fn sum_areas(s: Seq<Rect>) -> int
    decreases s.len(),
{
    if s.len() == 0 {
        0
    } else {
        sum_areas(s.drop_last()) + s.last().spec_area()
    }
}

/// Replacing one rectangle replaces its contribution to the summed areas.
pub proof fn lemma_sum_areas_update(s: Seq<Rect>, i: int, v: Rect)
    requires
        0 <= i < s.len(),
    ensures
        sum_areas(s.update(i, v)) == sum_areas(s) - s[i].spec_area() + v.spec_area(),
    decreases s.len(),
{
    if i == s.len() - 1 {
        assert(s.update(i, v).drop_last() =~= s.drop_last());
        assert(s.update(i, v).last() == v);
    } else {
        assert(s.update(i, v).drop_last() =~= s.drop_last().update(i, v));
        assert(s.update(i, v).last() == s.last());
        lemma_sum_areas_update(s.drop_last(), i, v);
    }
}

/// Removing one rectangle removes its contribution to the summed areas.
pub proof fn lemma_sum_areas_remove(s: Seq<Rect>, j: int)
    requires
        0 <= j < s.len(),
    ensures
        sum_areas(s.remove(j)) == sum_areas(s) - s[j].spec_area(),
    decreases s.len(),
{
    if j == s.len() - 1 {
        assert(s.remove(j) =~= s.drop_last());
    } else {
        assert(s.remove(j).drop_last() =~= s.drop_last().remove(j));
        assert(s.remove(j).last() == s.last());
        lemma_sum_areas_remove(s.drop_last(), j);
    }
}

/// The sum of the widths of the rectangles in the sequence.
pub open spec fn sum_widths(s: Seq<Rect>) -> int
    decreases s.len(),
{
    if s.len() == 0 {
        0
    } else {
        sum_widths(s.drop_last()) + s.last().spec_width()
    }
}

/// The sum of the heights of the rectangles in the sequence.
pub open spec fn sum_heights(s: Seq<Rect>) -> int
    decreases s.len(),
{
    if s.len() == 0 {
        0
    } else {
        sum_heights(s.drop_last()) + s.last().spec_height()
    }
}

/// The widths and heights of the rectangles, slot by slot.
pub open spec fn sizes_of(s: Seq<Rect>) -> Seq<(int, int)> {
    s.map_values(|r: Rect| (r.spec_width(), r.spec_height()))
}

/// Replacing one element of a sequence replaces its contribution to the
/// multiset.
pub proof fn lemma_update_to_multiset<A>(s: Seq<A>, i: int, v: A)
    requires
        0 <= i < s.len(),
    ensures
        s.update(i, v).to_multiset() == s.to_multiset().remove(s[i]).insert(v),
{
    broadcast use vstd::seq_lib::group_to_multiset_ensures;
    broadcast use vstd::multiset::group_multiset_axioms;

    let u = s.update(i, v);
    assert(u.remove(i) =~= s.remove(i));
    assert(u.remove(i).to_multiset() =~= u.to_multiset().remove(u[i]));
    assert(s.remove(i).to_multiset() =~= s.to_multiset().remove(s[i]));
    assert(u.contains(v));
    assert(u.to_multiset().count(v) > 0);
    assert(s.contains(s[i]));
    assert(s.to_multiset().count(s[i]) > 0);
    assert forall|w: A|
        u.to_multiset().count(w) == s.to_multiset().remove(s[i]).insert(v).count(w) by {
        assert(u.to_multiset().remove(v).count(w) == s.to_multiset().remove(s[i]).count(w));
    }
    assert(u.to_multiset() =~= s.to_multiset().remove(s[i]).insert(v));
}

/// Swapping two elements of a sequence leaves its multiset unchanged.
pub proof fn lemma_swap_to_multiset<A>(s: Seq<A>, i: int, j: int)
    requires
        0 <= i < s.len(),
        0 <= j < s.len(),
    ensures
        s.update(i, s[j]).update(j, s[i]).to_multiset() == s.to_multiset(),
{
    broadcast use vstd::multiset::group_multiset_axioms;

    if i == j {
        assert(s.update(i, s[j]).update(j, s[i]) =~= s);
    } else {
        let u1 = s.update(i, s[j]);
        lemma_update_to_multiset(s, i, s[j]);
        assert(u1[j] == s[j]);
        lemma_update_to_multiset(u1, j, s[i]);
        broadcast use vstd::seq_lib::group_to_multiset_ensures;

        assert(s.contains(s[i]) && s.contains(s[j]));
        assert(s.to_multiset().count(s[i]) > 0 && s.to_multiset().count(s[j]) > 0);
        assert forall|w: A|
            u1.update(j, s[i]).to_multiset().count(w) == s.to_multiset().count(w) by {
            assert(u1.to_multiset().count(w) == s.to_multiset().remove(s[i]).insert(s[j]).count(
                w,
            ));
        }
        assert(u1.update(j, s[i]).to_multiset() =~= s.to_multiset());
    }
}

/// A multiset-equal reordering of a sequence keeps the multiset of any
/// per-element view of it.
pub proof fn lemma_map_values_multiset<A, B>(s: Seq<A>, t: Seq<A>, f: spec_fn(A) -> B)
    requires
        s.to_multiset() == t.to_multiset(),
    ensures
        s.map_values(f).to_multiset() == t.map_values(f).to_multiset(),
    decreases s.len(),
{
    broadcast use vstd::seq_lib::group_to_multiset_ensures;
    broadcast use vstd::multiset::group_multiset_axioms;

    if s.len() == 0 {
        assert(s.to_multiset().len() == s.len());
        assert(t.to_multiset().len() == t.len());
        assert(t.len() == 0);
        assert(s.map_values(f) =~= Seq::<B>::empty());
        assert(t.map_values(f) =~= Seq::<B>::empty());
    } else {
        let x = s.last();
        assert(s.contains(x));
        assert(t.to_multiset().count(x) > 0);
        assert(t.contains(x));
        let idx = choose|idx: int| 0 <= idx < t.len() && t[idx] == x;
        let s1 = s.drop_last();
        let t1 = t.remove(idx);
        assert(s1.push(x) =~= s);
        assert(s1.push(x).to_multiset() =~= s1.to_multiset().insert(x));
        assert(t1.to_multiset() =~= t.to_multiset().remove(x));
        assert(s1.to_multiset() =~= t1.to_multiset()) by {
            assert forall|w: A| s1.to_multiset().count(w) == t1.to_multiset().count(w) by {
                assert(s1.to_multiset().insert(x).count(w) == t.to_multiset().count(w));
            }
        }
        lemma_map_values_multiset(s1, t1, f);
        assert(s.map_values(f) =~= s1.map_values(f).push(f(x)));
        assert(s1.map_values(f).push(f(x)).to_multiset() =~= s1.map_values(f).to_multiset().insert(
            f(x),
        ));
        assert(t1.map_values(f) =~= t.map_values(f).remove(idx));
        assert(t.map_values(f).remove(idx).to_multiset() =~= t.map_values(f).to_multiset().remove(
            t.map_values(f)[idx],
        ));
        assert(t.map_values(f)[idx] == f(x));
        assert(t.map_values(f).contains(f(x)));
        assert(t.map_values(f).to_multiset().count(f(x)) > 0);
        assert forall|w: B|
            s.map_values(f).to_multiset().count(w) == t.map_values(f).to_multiset().count(w) by {
            assert(t1.map_values(f).to_multiset().count(w) == t.map_values(
                f,
            ).to_multiset().remove(f(x)).count(w));
        }
        assert(s.map_values(f).to_multiset() =~= t.map_values(f).to_multiset());
    }
}

/// A multiset-equal reordering of rectangles keeps the multiset of their
/// sizes.
pub proof fn lemma_sizes_of_multiset(s: Seq<Rect>, t: Seq<Rect>)
    requires
        s.to_multiset() == t.to_multiset(),
    ensures
        sizes_of(s).to_multiset() == sizes_of(t).to_multiset(),
{
    lemma_map_values_multiset(s, t, |r: Rect| (r.spec_width(), r.spec_height()));
}

/// Every rectangle of `out` has the width and height of some rectangle of
/// `input`: packing algorithms move and reorder rectangles but never invent
/// or resize one.
pub open spec fn sizes_drawn_from(input: Seq<Rect>, out: Seq<Rect>) -> bool {
    forall|i: int|
        0 <= i < out.len() ==> exists|j: int|
            0 <= j < input.len() && (#[trigger] out[i]).spec_width() == (
            #[trigger] input[j]).spec_width() && out[i].spec_height() == input[j].spec_height()
}

/// Summed widths of well-formed rectangles are not negative.
pub proof fn lemma_sum_widths_nonneg(s: Seq<Rect>)
    requires
        all_wf(s),
    ensures
        sum_widths(s) >= 0,
    decreases s.len(),
{
    if s.len() > 0 {
        assert(all_wf(s.drop_last()));
        lemma_sum_widths_nonneg(s.drop_last());
    }
}

/// A prefix of well-formed rectangles never sums to a larger width than the
/// whole.
pub proof fn lemma_sum_widths_prefix(s: Seq<Rect>, i: int)
    requires
        all_wf(s),
        0 <= i <= s.len(),
    ensures
        sum_widths(s.subrange(0, i)) <= sum_widths(s),
    decreases s.len() - i,
{
    if i == s.len() {
        assert(s.subrange(0, i) =~= s);
    } else {
        lemma_sum_widths_prefix(s, i + 1);
        assert(s.subrange(0, i + 1).drop_last() =~= s.subrange(0, i));
        assert(s.subrange(0, i + 1).last() == s[i]);
    }
}

/// Summed heights of well-formed rectangles are not negative.
pub proof fn lemma_sum_heights_nonneg(s: Seq<Rect>)
    requires
        all_wf(s),
    ensures
        sum_heights(s) >= 0,
    decreases s.len(),
{
    if s.len() > 0 {
        assert(all_wf(s.drop_last()));
        lemma_sum_heights_nonneg(s.drop_last());
    }
}

/// A prefix of well-formed rectangles never sums to a larger height than
/// the whole.
pub proof fn lemma_sum_heights_prefix(s: Seq<Rect>, i: int)
    requires
        all_wf(s),
        0 <= i <= s.len(),
    ensures
        sum_heights(s.subrange(0, i)) <= sum_heights(s),
    decreases s.len() - i,
{
    if i == s.len() {
        assert(s.subrange(0, i) =~= s);
    } else {
        lemma_sum_heights_prefix(s, i + 1);
        assert(s.subrange(0, i + 1).drop_last() =~= s.subrange(0, i));
        assert(s.subrange(0, i + 1).last() == s[i]);
    }
}

impl Rect {
    /// Where `other`'s left edge falls inside `self`, clamped to `self`.
    pub open spec fn cut_a(self, other: Rect) -> i32 {
        clamp_coord(other.x1, self.x1, self.x2)
    }

    /// Where `other`'s top edge falls inside `self`, clamped to `self`.
    pub open spec fn cut_b(self, other: Rect) -> i32 {
        clamp_coord(other.y1, self.y1, self.y2)
    }

    /// Where `other`'s right edge falls inside `self`, clamped to `self`.
    pub open spec fn cut_c(self, other: Rect) -> i32 {
        clamp_coord(other.x2, self.x1, self.x2)
    }

    /// Where `other`'s bottom edge falls inside `self`, clamped to `self`.
    pub open spec fn cut_d(self, other: Rect) -> i32 {
        clamp_coord(other.y2, self.y1, self.y2)
    }

    /// The band of `self` left of `other`, running down to the bottom band.
    pub open spec fn spec_cut_left(self, other: Rect) -> Rect {
        Rect { x1: self.x1, y1: self.y1, x2: self.cut_a(other), y2: self.cut_d(other) }
    }

    /// The band of `self` above `other`, running right to the right edge.
    pub open spec fn spec_cut_top(self, other: Rect) -> Rect {
        Rect { x1: self.cut_a(other), y1: self.y1, x2: self.x2, y2: self.cut_b(other) }
    }

    /// The band of `self` right of `other`, running up from the top band.
    pub open spec fn spec_cut_right(self, other: Rect) -> Rect {
        Rect { x1: self.cut_c(other), y1: self.cut_b(other), x2: self.x2, y2: self.y2 }
    }

    /// The band of `self` below `other`, running left from the right band.
    pub open spec fn spec_cut_bottom(self, other: Rect) -> Rect {
        Rect { x1: self.x1, y1: self.cut_d(other), x2: self.cut_c(other), y2: self.y2 }
    }

    /// The non-empty fragments of cutting `other` out of `self`, in the fixed
    /// order left, top, right, bottom.
    pub open spec fn spec_cut_out(self, other: Rect) -> Seq<Rect> {
        let s0 = Seq::<Rect>::empty();
        let s1 = if !self.spec_cut_left(other).spec_is_empty() {
            s0.push(self.spec_cut_left(other))
        } else {
            s0
        };
        let s2 = if !self.spec_cut_top(other).spec_is_empty() {
            s1.push(self.spec_cut_top(other))
        } else {
            s1
        };
        let s3 = if !self.spec_cut_right(other).spec_is_empty() {
            s2.push(self.spec_cut_right(other))
        } else {
            s2
        };
        if !self.spec_cut_bottom(other).spec_is_empty() {
            s3.push(self.spec_cut_bottom(other))
        } else {
            s3
        }
    }

    /// Calculates the minimal bounding box of a sequence of rectangles.
    ///
    /// Returns a zero rectangle if `rects` is empty.
    pub fn bbox(rects: &Vec<Rect>) -> (r: Rect)
        ensures
            r == bbox_spec(rects@),
    {
        if rects.len() == 0 {
            return Rect { x1: 0, y1: 0, x2: 0, y2: 0 };
        }
        let mut acc = rects[0];
        let mut i: usize = 1;
        proof {
            assert(rects@.subrange(0, 1) =~= seq![rects@[0]]);
        }
        while i < rects.len()
            invariant
                1 <= i <= rects@.len(),
                acc == bbox_spec(rects@.subrange(0, i as int)),
            decreases rects@.len() - i,
        {
            let b = rects[i];
            proof {
                let pre = rects@.subrange(0, i as int);
                let post = rects@.subrange(0, i + 1 as int);
                assert(post.drop_last() =~= pre);
                assert(post.last() == rects@[i as int]);
            }
            acc =
            Rect {
                x1: if acc.x1 <= b.x1 {
                    acc.x1
                } else {
                    b.x1
                },
                y1: if acc.y1 <= b.y1 {
                    acc.y1
                } else {
                    b.y1
                },
                x2: if acc.x2 >= b.x2 {
                    acc.x2
                } else {
                    b.x2
                },
                y2: if acc.y2 >= b.y2 {
                    acc.y2
                } else {
                    b.y2
                },
            };
            i = i + 1;
        }
        proof {
            assert(rects@.subrange(0, rects@.len() as int) =~= rects@);
        }
        acc
    }

    /// Cuts `other` out of `self`, returning up to four non-empty fragments
    /// in the fixed order left, top, right, bottom. The fragments never
    /// overlap `other`; together with the part of `other` inside `self` they
    /// tile `self` exactly.
    pub fn cut_out(&self, other: &Rect) -> (r: Vec<Rect>)
        requires
            self.wf(),
            other.wf(),
        ensures
            r@ == self.spec_cut_out(*other),
    {
        let a = clamp_exec(other.x1, self.x1, self.x2);
        let b = clamp_exec(other.y1, self.y1, self.y2);
        let c = clamp_exec(other.x2, self.x1, self.x2);
        let d = clamp_exec(other.y2, self.y1, self.y2);

        let left = Rect { x1: self.x1, y1: self.y1, x2: a, y2: d };
        let top = Rect { x1: a, y1: self.y1, x2: self.x2, y2: b };
        let right = Rect { x1: c, y1: b, x2: self.x2, y2: self.y2 };
        let bottom = Rect { x1: self.x1, y1: d, x2: c, y2: self.y2 };

        let mut out: Vec<Rect> = Vec::new();
        if !left.is_empty() {
            out.push(left);
        }
        if !top.is_empty() {
            out.push(top);
        }
        if !right.is_empty() {
            out.push(right);
        }
        if !bottom.is_empty() {
            out.push(bottom);
        }
        proof {
            assert(out@ =~= self.spec_cut_out(*other));
        }
        out
    }

    /// Decomposes the free space of a packing: returns a merge-closed,
    /// pairwise-disjoint set of rectangles covering exactly the bounding box
    /// of `packing` minus the union of its rectangles. When the packing is
    /// pairwise disjoint, the areas of the packing and of the result sum to
    /// the area of the bounding box.
    pub fn inverse(packing: &Vec<Rect>) -> (r: Vec<Rect>)
        requires
            all_wf(packing@),
        ensures
            all_wf(r@),
            pairwise_disjoint(r@),
            merge_closed(r@),
            packing@.len() > 0 ==> all_nonempty(r@),
            forall|i: int| 0 <= i < r@.len() ==> bbox_spec(packing@).spec_contains(#[trigger] r@[i]),
            forall|i: int, k: int|
                0 <= i < r@.len() && 0 <= k < packing@.len() && !packing@[k].spec_is_empty() ==> !(
                #[trigger] r@[i].spec_overlaps(packing@[k])),
            cells_of_seq(r@) == cells(bbox_spec(packing@)).difference(cells_of_seq(packing@)),
            pairwise_disjoint(packing@) ==> bbox_spec(packing@).spec_area() == sum_areas(packing@)
                + sum_areas(r@),
    {
        let bb = Rect::bbox(packing);
        let mut inverted: Vec<Rect> = Vec::new();
        inverted.push(bb);
        proof {
            if packing@.len() > 0 {
                lemma_bbox_encloses(packing@);
            }
            assert(inverted@ =~= seq![bb]);
            assert(inverted@.drop_last() =~= Seq::<Rect>::empty());
            assert(inverted@.last() == bb);
            assert(cells_of_seq(inverted@) == cells_of_seq(inverted@.drop_last()).union(
                cells(inverted@.last()),
            ));
            assert(cells_of_seq(packing@.subrange(0, 0)) == Set::<(int, int)>::empty()) by {
                assert(packing@.subrange(0, 0) =~= Seq::<Rect>::empty());
            }
            assert(cells_of_seq(inverted@) =~= cells(bb).difference(
                cells_of_seq(packing@.subrange(0, 0)),
            ));
        }

        for k in 0..packing.len()
            invariant
                all_wf(packing@),
                bb == bbox_spec(packing@),
                bb.wf(),
                all_wf(inverted@),
                pairwise_disjoint(inverted@),
                k == 0 ==> inverted@ == seq![bb],
                k > 0 ==> all_nonempty(inverted@),
                forall|m: int, idx: int|
                    0 <= m < inverted@.len() && 0 <= idx < k ==> !(
                    #[trigger] inverted@[m].spec_overlaps(packing@[idx])),
                cells_of_seq(inverted@) == cells(bb).difference(
                    cells_of_seq(packing@.subrange(0, k as int)),
                ),
        {
            let rect = packing[k];
            let mut next: Vec<Rect> = Vec::new();
            proof {
                assert(inverted@.subrange(0, 0) =~= Seq::<Rect>::empty());
                assert(cells_of_seq(next@) =~= cells_of_seq(inverted@.subrange(0, 0)).difference(
                    cells(rect),
                ));
            }

            for m in 0..inverted.len()
                invariant
                    all_wf(packing@),
                    k < packing@.len(),
                    rect == packing@[k as int],
                    all_wf(inverted@),
                    pairwise_disjoint(inverted@),
                    forall|n: int, idx: int|
                        0 <= n < inverted@.len() && 0 <= idx < k ==> !(
                        #[trigger] inverted@[n].spec_overlaps(packing@[idx])),
                    all_wf(next@),
                    all_nonempty(next@),
                    pairwise_disjoint(next@),
                    forall|n: int, idx: int|
                        0 <= n < next@.len() && 0 <= idx <= k ==> !(
                        #[trigger] next@[n].spec_overlaps(packing@[idx])),
                    cells_of_seq(next@) == cells_of_seq(
                        inverted@.subrange(0, m as int),
                    ).difference(cells(rect)),
            {
                let region = inverted[m];
                let mut frags = region.cut_out(&rect);
                let ghost fr: Seq<Rect> = region.spec_cut_out(rect);
                let ghost prev: Seq<Rect> = next@;
                next.append(&mut frags);
                proof {
                    lemma_cut_out_properties(region, rect);
                    assert(next@ == prev + fr);
                    lemma_cells_of_seq_concat(prev, fr);

                    // the new fragments stay clear of every packed rectangle
                    // seen so far, and of `rect` itself
                    assert forall|n: int, idx: int|
                        0 <= n < next@.len() && 0 <= idx <= k implies !(
                    #[trigger] next@[n].spec_overlaps(packing@[idx])) by {
                        if n >= prev.len() {
                            let g = fr[n - prev.len()];
                            assert(next@[n] == g);
                            if idx < k {
                                if g.spec_overlaps(packing@[idx]) {
                                    lemma_overlap_monotonic(region, g, packing@[idx]);
                                }
                            } else {
                                assert(!g.spec_overlaps(rect));
                            }
                        } else {
                            assert(next@[n] == prev[n]);
                        }
                    }

                    // the new fragments are disjoint from the fragments of
                    // earlier regions because the regions are disjoint
                    assert forall|n: int, n2: int|
                        0 <= n < next@.len() && 0 <= n2 < next@.len() && n != n2 implies !(
                    #[trigger] next@[n].spec_overlaps(next@[n2])) by {
                        lemma_cells_of_seq_contains(prev);
                        if n < prev.len() && n2 < prev.len() {
                            assert(next@[n] == prev[n] && next@[n2] == prev[n2]);
                        } else if n >= prev.len() && n2 >= prev.len() {
                            assert(next@[n] == fr[n - prev.len()] && next@[n2] == fr[n2
                                - prev.len()]);
                        } else {
                            let e = if n < prev.len() {
                                prev[n]
                            } else {
                                prev[n2]
                            };
                            let g = if n < prev.len() {
                                fr[n2 - prev.len()]
                            } else {
                                fr[n - prev.len()]
                            };
                            if e.spec_overlaps(g) || g.spec_overlaps(e) {
                                lemma_shared_cell_overlaps(e, g);
                                let p = choose|p: (int, int)|
                                    cells(e).contains(p) && #[trigger] cells(g).contains(p);
                                assert(cells_of_seq(prev).contains(p));
                                let n3 = choose|n3: int|
                                    0 <= n3 < prev.len() && #[trigger] cells(prev[n3]).contains(p);
                                lemma_contains_cells(region, g);
                                assert(cells(inverted@[m as int]).contains(p));
                                let sub = inverted@.subrange(0, m as int);
                                lemma_cells_of_seq_contains(sub);
                                assert(cells_of_seq(sub).contains(p));
                                let n4 = choose|n4: int|
                                    0 <= n4 < sub.len() && #[trigger] cells(sub[n4]).contains(p);
                                lemma_shared_cell_overlaps(inverted@[n4], inverted@[m as int]);
                                assert(inverted@[n4].spec_overlaps(inverted@[m as int]));
                                assert(false);
                            }
                        }
                    }

                    // cells: the covered free space now excludes `rect` over
                    // one more region
                    assert(cells_of_seq(next@) == cells_of_seq(
                        inverted@.subrange(0, m + 1 as int),
                    ).difference(cells(rect))) by {
                        assert(inverted@.subrange(0, m + 1 as int) =~= inverted@.subrange(
                            0,
                            m as int,
                        ).push(inverted@[m as int]));
                        lemma_cells_push(inverted@.subrange(0, m as int), inverted@[m as int]);
                        assert(cells_of_seq(prev).union(cells_of_seq(fr)) =~= cells_of_seq(
                            inverted@.subrange(0, m as int),
                        ).union(cells(region).difference(cells(rect))).difference(cells(rect)));
                    }
                }
            }
            let ghost done: Seq<Rect> = inverted@;
            inverted = next;
            proof {
                assert(packing@.subrange(0, k + 1 as int) =~= packing@.subrange(0, k as int).push(
                    packing@[k as int],
                ));
                lemma_cells_push(packing@.subrange(0, k as int), packing@[k as int]);
                assert(done.subrange(0, done.len() as int) =~= done);
                assert(cells_of_seq(inverted@) == cells_of_seq(done).difference(cells(rect)));
                assert(cells_of_seq(inverted@) =~= cells(bb).difference(
                    cells_of_seq(packing@.subrange(0, k + 1 as int)),
                ));
            }
        }

        let ghost pre: Seq<Rect> = inverted@;
        Rect::simplify(&mut inverted);
        proof {
            assert(packing@.subrange(0, packing@.len() as int) =~= packing@);
            if packing@.len() == 0 {
                assert(pre == seq![bb]);
                assert(merge_closed(pre));
                assert(inverted@ == pre);
                assert(cells_of_seq(packing@) =~= Set::<(int, int)>::empty());
            }
            assert(pairwise_disjoint(inverted@));
            assert(packing@.len() > 0 ==> all_nonempty(inverted@)) by {
                if packing@.len() > 0 {
                    assert(all_nonempty(pre));
                }
            }

            // every fragment lies inside the bounding box
            assert forall|i2: int| 0 <= i2 < inverted@.len() implies bbox_spec(
                packing@,
            ).spec_contains(#[trigger] inverted@[i2]) by {
                let e = inverted@[i2];
                if packing@.len() == 0 {
                    assert(e == bb);
                } else {
                    assert(!e.spec_is_empty());
                    assert(cells(e).subset_of(cells(bb))) by {
                        lemma_cells_of_seq_contains(inverted@);
                        assert forall|c: (int, int)| #[trigger] cells(e).contains(c) implies cells(
                            bb,
                        ).contains(c) by {
                            assert(cells_of_seq(inverted@).contains(c));
                        }
                    }
                    lemma_cells_subset_contains(bb, e);
                }
            }

            // nothing in the result overlaps a packed rectangle with area
            assert forall|i: int, k: int|
                0 <= i < inverted@.len() && 0 <= k < packing@.len()
                    && !packing@[k].spec_is_empty() implies !(
            #[trigger] inverted@[i].spec_overlaps(packing@[k])) by {
                let e = inverted@[i];
                let p = packing@[k];
                if e.spec_overlaps(p) {
                    assert(all_nonempty(pre));
                    assert(!e.spec_is_empty());
                    lemma_shared_cell_overlaps(e, p);
                    let c = choose|c: (int, int)|
                        cells(e).contains(c) && #[trigger] cells(p).contains(c);
                    lemma_cells_of_seq_contains(inverted@);
                    assert(cells_of_seq(inverted@).contains(c));
                    lemma_cells_of_seq_contains(packing@);
                    assert(cells_of_seq(packing@).contains(c));
                    assert(false);
                }
            }

            // area conservation for a disjoint packing
            if pairwise_disjoint(packing@) {
                lemma_disjoint_sum_areas(packing@);
                lemma_disjoint_sum_areas(inverted@);
                lemma_cells_area(bbox_spec(packing@));
                assert(cells_of_seq(packing@).subset_of(cells(bbox_spec(packing@)))) by {
                    lemma_cells_of_seq_contains(packing@);
                    if packing@.len() > 0 {
                        lemma_bbox_encloses(packing@);
                    }
                    assert forall|c: (int, int)| #[trigger]
                        cells_of_seq(packing@).contains(c) implies cells(
                        bbox_spec(packing@),
                    ).contains(c) by {
                        let n = choose|n: int|
                            0 <= n < packing@.len() && #[trigger] cells(packing@[n]).contains(c);
                        lemma_contains_cells(bbox_spec(packing@), packing@[n]);
                    }
                }
                lemma_set_difference_len(cells(bbox_spec(packing@)), cells_of_seq(packing@));
                assert(cells(bbox_spec(packing@)).intersect(cells_of_seq(packing@))
                    =~= cells_of_seq(packing@));
            }
        }
        inverted
    }

    /// Repeatedly merges mergeable pairs until none is left: the result is
    /// merge-closed. The covered cells are preserved exactly, disjointness
    /// of a non-degenerate arrangement is preserved, and an already
    /// merge-closed sequence comes back unchanged — so running the pass
    /// twice yields what running it once does.
    pub fn simplify(rects: &mut Vec<Rect>)
        requires
            all_wf(old(rects)@),
        ensures
            all_wf(final(rects)@),
            merge_closed(final(rects)@),
            final(rects)@.len() <= old(rects)@.len(),
            cells_of_seq(final(rects)@) == cells_of_seq(old(rects)@),
            sum_areas(final(rects)@) == sum_areas(old(rects)@),
            all_nonempty(old(rects)@) ==> all_nonempty(final(rects)@),
            pairwise_disjoint(old(rects)@) && all_nonempty(old(rects)@) ==> pairwise_disjoint(
                final(rects)@,
            ),
            merge_closed(old(rects)@) ==> final(rects)@ == old(rects)@,
    {
        let ghost orig: Seq<Rect> = rects@;
        let mut i: usize = 0;

        while i < rects.len()
            invariant
                all_wf(orig),
                all_wf(rects@),
                rects@.len() <= orig.len(),
                i <= rects@.len(),
                cells_of_seq(rects@) == cells_of_seq(orig),
                sum_areas(rects@) == sum_areas(orig),
                all_nonempty(orig) ==> all_nonempty(rects@),
                pairwise_disjoint(orig) && all_nonempty(orig) ==> pairwise_disjoint(rects@),
                merge_closed(orig) ==> rects@ == orig,
                forall|p: int, q: int|
                    0 <= p < i && 0 <= q < i && p != q ==> !(#[trigger] rects@[p].spec_can_merge(
                        rects@[q],
                    )),
            decreases rects@.len() - i,
        {
            let mut j: usize = 0;
            let ghost m0: int = rects@.len() - i;

            while j < rects.len()
                invariant
                    all_wf(orig),
                    all_wf(rects@),
                    rects@.len() <= orig.len(),
                    i < rects@.len(),
                    j <= rects@.len(),
                    rects@.len() - i <= m0,
                    cells_of_seq(rects@) == cells_of_seq(orig),
                    sum_areas(rects@) == sum_areas(orig),
                    all_nonempty(orig) ==> all_nonempty(rects@),
                    pairwise_disjoint(orig) && all_nonempty(orig) ==> pairwise_disjoint(rects@),
                    merge_closed(orig) ==> rects@ == orig,
                    forall|p: int, q: int|
                        0 <= p < i && 0 <= q < i && p != q ==> !(
                        #[trigger] rects@[p].spec_can_merge(rects@[q])),
                    forall|q: int|
                        0 <= q < j && q != i ==> !rects@[i as int].spec_can_merge(
                            #[trigger] rects@[q],
                        ),
                decreases rects@.len(), rects@.len() - j,
            {
                if j == i {
                    j += 1;
                    continue ;
                }

                let cur = rects[i];
                let cand = rects[j];
                if let Some(merged) = cur.merge(&cand) {
                    proof {
                        if merge_closed(orig) {
                            assert(rects@ == orig);
                            assert(false);
                        }
                    }
                    let ghost s: Seq<Rect> = rects@;
                    rects[i] = merged;
                    rects.remove(j);
                    proof {
                        let s2 = rects@;
                        assert(s2 == s.update(i as int, merged).remove(j as int));
                        lemma_merge_area(cur, cand);
                        lemma_cells_update_remove(s, i as int, j as int, merged);
                        lemma_sum_areas_update(s, i as int, merged);
                        lemma_sum_areas_remove(s.update(i as int, merged), j as int);
                        assert(s.update(i as int, merged)[j as int] == cand);
                        assert(all_wf(s2)) by {
                            assert forall|n: int| 0 <= n < s2.len() implies (
                            #[trigger] s2[n]).wf() by {
                                let n2: int = if n < j {
                                    n
                                } else {
                                    n + 1
                                };
                                if n2 != i {
                                    assert(s2[n] == s[n2]);
                                }
                            }
                        }
                        assert(all_nonempty(orig) ==> all_nonempty(s2)) by {
                            if all_nonempty(orig) {
                                assert forall|n: int| 0 <= n < s2.len() implies !(
                                #[trigger] s2[n]).spec_is_empty() by {
                                    let n2: int = if n < j {
                                        n
                                    } else {
                                        n + 1
                                    };
                                    if n2 != i {
                                        assert(s2[n] == s[n2]);
                                    } else {
                                        assert(s2[n] == merged);
                                        assert(!cur.spec_is_empty());
                                    }
                                }
                            }
                        }
                        assert(pairwise_disjoint(orig) && all_nonempty(orig)
                            ==> pairwise_disjoint(s2)) by {
                            if pairwise_disjoint(orig) && all_nonempty(orig) {
                                assert forall|m: int, n: int|
                                    0 <= m < s2.len() && 0 <= n < s2.len() && m != n implies !(
                                #[trigger] s2[m].spec_overlaps(s2[n])) by {
                                    let m2: int = if m < j {
                                        m
                                    } else {
                                        m + 1
                                    };
                                    let n2: int = if n < j {
                                        n
                                    } else {
                                        n + 1
                                    };
                                    if m2 != i && n2 != i {
                                        assert(s2[m] == s[m2] && s2[n] == s[n2]);
                                    } else if m2 == i {
                                        assert(s2[m] == merged && s2[n] == s[n2]);
                                        if merged.spec_overlaps(s[n2]) {
                                            lemma_shared_cell_overlaps(merged, s[n2]);
                                            let p = choose|p: (int, int)|
                                                cells(merged).contains(p) && #[trigger] cells(
                                                    s[n2],
                                                ).contains(p);
                                            lemma_shared_cell_overlaps(cur, s[n2]);
                                            lemma_shared_cell_overlaps(cand, s[n2]);
                                            assert(false);
                                        }
                                    } else {
                                        assert(s2[n] == merged && s2[m] == s[m2]);
                                        if s[m2].spec_overlaps(merged) {
                                            lemma_shared_cell_overlaps(s[m2], merged);
                                            let p = choose|p: (int, int)|
                                                cells(s[m2]).contains(p) && #[trigger] cells(
                                                    merged,
                                                ).contains(p);
                                            lemma_shared_cell_overlaps(cur, s[m2]);
                                            lemma_shared_cell_overlaps(cand, s[m2]);
                                            assert(false);
                                        }
                                    }
                                }
                            }
                        }
                        assert(forall|p: int, q: int|
                            0 <= p < i && 0 <= q < i && p != q && i <= j ==> s2[p] == s[p] && s2[q]
                                == s[q]);
                        assert forall|p: int, q: int|
                            0 <= p < i - 1 && 0 <= q < i - 1 && p != q && j < i implies !(
                        #[trigger] s2[p].spec_can_merge(s2[q])) by {
                            let p2: int = if p < j {
                                p
                            } else {
                                p + 1
                            };
                            let q2: int = if q < j {
                                q
                            } else {
                                q + 1
                            };
                            assert(s2[p] == s[p2] && s2[q] == s[q2]);
                        }
                    }
                    j = 0;
                    if j < i {
                        i -= 1;
                    }
                } else {
                    j += 1;
                }
            }
            proof {
                assert forall|p: int, q: int|
                    0 <= p < i + 1 && 0 <= q < i + 1 && p != q implies !(
                #[trigger] rects@[p].spec_can_merge(rects@[q])) by {
                    if p == i || q == i {
                        assert(!rects@[i as int].spec_can_merge(rects@[if p == i {
                            q
                        } else {
                            p
                        }]));
                    }
                }
            }
            i += 1;
        }
    }
}

/// Clamps `v` into `[lo, hi]`.
fn clamp_exec(v: i32, lo: i32, hi: i32) -> (r: i32)
    requires
        lo <= hi,
    ensures
        r == clamp_coord(v, lo, hi),
{
    if v <= lo {
        lo
    } else if v >= hi {
        hi
    } else {
        v
    }
}

/// Overlap of rectangles is symmetric.
pub proof fn lemma_rect_overlaps_symmetric(a: Rect, b: Rect)
    ensures
        a.spec_overlaps(b) == b.spec_overlaps(a),
{
}

/// Containment of rectangles is reflexive: every rectangle contains itself.
pub proof fn lemma_rect_contains_reflexive(a: Rect)
    ensures
        a.spec_contains(a),
{
}

} // verus!
