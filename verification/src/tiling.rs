//! The unit-cell model of integer rectangles.
//!
//! A rectangle covers the set of integer unit cells `(x, y)` with
//! `x1 <= x < x2` and `y1 <= y < y2`; its area equals the number of covered
//! cells. Disjointness, containment and area conservation of rectangle
//! arrangements all reduce to statements about these cell sets, which is how
//! the tiling guarantees of [`crate::geometry::Rect::cut_out`] and
//! [`crate::geometry::Rect::inverse`] are proved.

use vstd::prelude::*;
use vstd::set_lib::*;
use vstd::relations::injective_on;
use crate::geometry::Rect;
use crate::geometry::all_wf;
use crate::geometry::bbox_spec;
use crate::geometry::pairwise_disjoint;
use crate::geometry::sum_areas;

verus! {

/// The integer unit cells covered by a rectangle.
pub open spec fn cells(r: Rect) -> Set<(int, int)> {
    Set::new(|p: (int, int)| r.x1 <= p.0 < r.x2 && r.y1 <= p.1 < r.y2)
}

/// The cells covered by at least one rectangle of the sequence.
pub open spec fn cells_of_seq(s: Seq<Rect>) -> Set<(int, int)>
    decreases s.len(),
{
    if s.len() == 0 {
        Set::empty()
    } else {
        cells_of_seq(s.drop_last()).union(cells(s.last()))
    }
}

/// An empty rectangle covers no cells.
pub proof fn lemma_empty_cells(r: Rect)
    requires
        r.spec_is_empty() || !r.wf(),
    ensures
        cells(r) =~= Set::<(int, int)>::empty(),
{
}

/// A well-formed rectangle covers exactly `area` cells.
pub proof fn lemma_cells_area(r: Rect)
    requires
        r.wf(),
    ensures
        cells(r).finite(),
        cells(r).len() == r.spec_area(),
    decreases r.x2 - r.x1,
{
    if r.x1 == r.x2 {
        assert(cells(r) =~= Set::empty());
        assert(r.spec_area() == 0);
    } else {
        let shrunk = Rect { x1: r.x1, y1: r.y1, x2: (r.x2 - 1) as i32, y2: r.y2 };
        lemma_cells_area(shrunk);
        let f = |y: int| ((r.x2 - 1) as int, y);
        let range = set_int_range(r.y1 as int, r.y2 as int);
        let col = range.map(f);
        lemma_int_range(r.y1 as int, r.y2 as int);
        assert(injective_on(f, range));
        lemma_map_size(range, col, f);
        assert(cells(shrunk).disjoint(col)) by {
            assert forall|p: (int, int)| col.contains(p) implies p.0 == r.x2 - 1 by {
                let y = choose|y: int| range.contains(y) && f(y) == p;
            }
        }
        assert(cells(r) =~= cells(shrunk).union(col)) by {
            assert forall|p: (int, int)| cells(r).contains(p) && p.0 == r.x2 - 1 implies col.contains(
                p,
            ) by {
                assert(range.contains(p.1) && f(p.1) == p);
            }
        }
        lemma_set_disjoint_lens(cells(shrunk), col);
        assert(cells(shrunk).union(col) == cells(shrunk) + col);
        assert(r.spec_area() == shrunk.spec_area() + (r.y2 - r.y1)) by (nonlinear_arith)
            requires
                r.x1 < r.x2,
                shrunk.x1 == r.x1 && shrunk.y1 == r.y1 && shrunk.y2 == r.y2,
                shrunk.x2 == r.x2 - 1,
        ;
    }
}

/// Rectangles sharing a cell overlap; non-empty well-formed rectangles that
/// overlap share a cell. (A zero-extent rectangle can satisfy the open
/// overlap test while covering no cells, so the converse needs both
/// rectangles non-empty.)
pub proof fn lemma_shared_cell_overlaps(a: Rect, b: Rect)
    ensures
        !cells(a).disjoint(cells(b)) ==> a.spec_overlaps(b),
        a.wf() && b.wf() && !a.spec_is_empty() && !b.spec_is_empty() && a.spec_overlaps(b)
            ==> !cells(a).disjoint(cells(b)),
{
    if a.wf() && b.wf() && !a.spec_is_empty() && !b.spec_is_empty() && a.spec_overlaps(b) {
        let x = if a.x1 >= b.x1 {
            a.x1 as int
        } else {
            b.x1 as int
        };
        let y = if a.y1 >= b.y1 {
            a.y1 as int
        } else {
            b.y1 as int
        };
        assert(cells(a).contains((x, y)) && cells(b).contains((x, y)));
    }
}

/// A cell is covered by a sequence exactly when one of its rectangles covers
/// it.
pub proof fn lemma_cells_of_seq_contains(s: Seq<Rect>)
    ensures
        forall|p: (int, int)|
            #[trigger] cells_of_seq(s).contains(p) <==> exists|i: int|
                0 <= i < s.len() && #[trigger] cells(s[i]).contains(p),
    decreases s.len(),
{
    if s.len() > 0 {
        lemma_cells_of_seq_contains(s.drop_last());
        assert forall|p: (int, int)| #[trigger] cells_of_seq(s).contains(p) implies exists|i: int|
            0 <= i < s.len() && #[trigger] cells(s[i]).contains(p) by {
            if cells_of_seq(s.drop_last()).contains(p) {
                let i = choose|i: int|
                    0 <= i < s.drop_last().len() && #[trigger] cells(s.drop_last()[i]).contains(p);
                assert(cells(s[i]).contains(p));
            } else {
                assert(cells(s[s.len() - 1]).contains(p));
            }
        }
        assert forall|p: (int, int), i: int|
            0 <= i < s.len() && #[trigger] cells(s[i]).contains(p) implies #[trigger] cells_of_seq(
            s,
        ).contains(p) by {
            if i < s.len() - 1 {
                assert(cells(s.drop_last()[i]).contains(p));
                assert(cells_of_seq(s.drop_last()).contains(p));
            } else {
                assert(cells(s.last()).contains(p));
            }
        }
    }
}

/// Containment of rectangles is containment of their cells.
pub proof fn lemma_contains_cells(outer: Rect, inner: Rect)
    requires
        outer.spec_contains(inner),
    ensures
        cells(inner).subset_of(cells(outer)),
{
}

/// A non-empty well-formed rectangle whose cells all lie among another
/// rectangle's cells lies inside that rectangle.
pub proof fn lemma_cells_subset_contains(outer: Rect, inner: Rect)
    requires
        inner.wf(),
        !inner.spec_is_empty(),
        cells(inner).subset_of(cells(outer)),
    ensures
        outer.spec_contains(inner),
{
    assert(cells(inner).contains((inner.x1 as int, inner.y1 as int)));
    assert(cells(inner).contains((inner.x2 - 1, inner.y2 - 1)));
    assert(cells(outer).contains((inner.x1 as int, inner.y1 as int)));
    assert(cells(outer).contains((inner.x2 - 1, inner.y2 - 1)));
}

/// Appending a rectangle adds its cells.
pub proof fn lemma_cells_push(s: Seq<Rect>, x: Rect)
    ensures
        cells_of_seq(s.push(x)) == cells_of_seq(s).union(cells(x)),
{
    assert(s.push(x).drop_last() =~= s);
    assert(s.push(x).last() == x);
}

/// The cells of pairwise disjoint well-formed rectangles number exactly the
/// sum of their areas.
pub proof fn lemma_disjoint_sum_areas(s: Seq<Rect>)
    requires
        all_wf(s),
        pairwise_disjoint(s),
    ensures
        cells_of_seq(s).finite(),
        cells_of_seq(s).len() == sum_areas(s),
    decreases s.len(),
{
    if s.len() == 0 {
    } else {
        let pre = s.drop_last();
        let last = s.last();
        assert(all_wf(pre));
        assert(pairwise_disjoint(pre)) by {
            assert forall|i: int, j: int|
                0 <= i < pre.len() && 0 <= j < pre.len() && i != j implies !(
            #[trigger] pre[i].spec_overlaps(pre[j])) by {
                assert(pre[i] == s[i] && pre[j] == s[j]);
            }
        }
        lemma_disjoint_sum_areas(pre);
        lemma_cells_area(last);
        assert(cells_of_seq(pre).disjoint(cells(last))) by {
            lemma_cells_of_seq_contains(pre);
            assert forall|p: (int, int)| #[trigger] cells_of_seq(pre).contains(p) implies !cells(
                last,
            ).contains(p) by {
                if cells(last).contains(p) {
                    let i = choose|i: int|
                        0 <= i < pre.len() && #[trigger] cells(pre[i]).contains(p);
                    lemma_shared_cell_overlaps(s[i], last);
                    assert(s[i].spec_overlaps(s[s.len() - 1]));
                }
            }
        }
        lemma_set_disjoint_lens(cells_of_seq(pre), cells(last));
        assert(cells_of_seq(pre) + cells(last) == cells_of_seq(pre).union(cells(last)));
    }
}

/// The fragments of a cut are well formed, non-empty, lie inside the cut
/// rectangle, avoid the removed one, are mutually disjoint, and cover
/// exactly the cells of the cut rectangle that the removed one does not.
pub proof fn lemma_cut_out_properties(f: Rect, o: Rect)
    requires
        f.wf(),
        o.wf(),
    ensures
        all_wf(f.spec_cut_out(o)),
        forall|i: int|
            0 <= i < f.spec_cut_out(o).len() ==> !(#[trigger] f.spec_cut_out(o)[i]).spec_is_empty(),
        forall|i: int|
            0 <= i < f.spec_cut_out(o).len() ==> f.spec_contains(#[trigger] f.spec_cut_out(o)[i]),
        forall|i: int|
            0 <= i < f.spec_cut_out(o).len() ==> !(#[trigger] f.spec_cut_out(o)[i]).spec_overlaps(
                o,
            ),
        pairwise_disjoint(f.spec_cut_out(o)),
        cells_of_seq(f.spec_cut_out(o)) == cells(f).difference(cells(o)),
{
    let l = f.spec_cut_left(o);
    let t = f.spec_cut_top(o);
    let r = f.spec_cut_right(o);
    let b = f.spec_cut_bottom(o);
    let cut = f.spec_cut_out(o);

    assert(forall|i: int|
        0 <= i < cut.len() ==> (#[trigger] cut[i] == l || cut[i] == t || cut[i] == r || cut[i]
            == b) && !cut[i].spec_is_empty());

    assert(l.wf() && t.wf() && r.wf() && b.wf());
    assert(f.spec_contains(l) && f.spec_contains(t) && f.spec_contains(r) && f.spec_contains(b));
    assert(!l.spec_is_empty() ==> !l.spec_overlaps(o));
    assert(!t.spec_is_empty() ==> !t.spec_overlaps(o));
    assert(!r.spec_is_empty() ==> !r.spec_overlaps(o));
    assert(!b.spec_is_empty() ==> !b.spec_overlaps(o));

    assert(!l.spec_overlaps(t) && !l.spec_overlaps(r) && !l.spec_overlaps(b));
    assert(!t.spec_overlaps(l) && !t.spec_overlaps(r) && !t.spec_overlaps(b));
    assert(!r.spec_overlaps(l) && !r.spec_overlaps(t) && !r.spec_overlaps(b));
    assert(!b.spec_overlaps(l) && !b.spec_overlaps(t) && !b.spec_overlaps(r));
    assert(pairwise_disjoint(cut));

    let union4 = cells(l).union(cells(t)).union(cells(r)).union(cells(b));
    assert(cells_of_seq(cut) == union4) by {
        let s0 = Seq::<Rect>::empty();
        let s1 = if !l.spec_is_empty() {
            s0.push(l)
        } else {
            s0
        };
        let s2 = if !t.spec_is_empty() {
            s1.push(t)
        } else {
            s1
        };
        let s3 = if !r.spec_is_empty() {
            s2.push(r)
        } else {
            s2
        };
        if !l.spec_is_empty() {
            lemma_cells_push(s0, l);
        } else {
            lemma_empty_cells(l);
        }
        assert(cells_of_seq(s1) =~= cells(l));
        if !t.spec_is_empty() {
            lemma_cells_push(s1, t);
        } else {
            lemma_empty_cells(t);
        }
        assert(cells_of_seq(s2) =~= cells(l).union(cells(t)));
        if !r.spec_is_empty() {
            lemma_cells_push(s2, r);
        } else {
            lemma_empty_cells(r);
        }
        assert(cells_of_seq(s3) =~= cells(l).union(cells(t)).union(cells(r)));
        if !b.spec_is_empty() {
            lemma_cells_push(s3, b);
        } else {
            lemma_empty_cells(b);
        }
        assert(cells_of_seq(cut) =~= union4);
    }

    assert(union4 == cells(f).difference(cells(o))) by {
        assert forall|p: (int, int)| #[trigger] union4.contains(p) implies cells(f).difference(
            cells(o),
        ).contains(p) by {
            lemma_shared_cell_overlaps(l, o);
            lemma_shared_cell_overlaps(t, o);
            lemma_shared_cell_overlaps(r, o);
            lemma_shared_cell_overlaps(b, o);
        }
        assert forall|p: (int, int)| cells(f).difference(cells(o)).contains(p) implies #[trigger]
        union4.contains(p) by {
            let x = p.0;
            let y = p.1;
            if x < f.cut_a(o) {
                if y < f.cut_d(o) {
                    assert(cells(l).contains(p));
                } else {
                    assert(cells(b).contains(p));
                }
            } else if y < f.cut_b(o) {
                assert(cells(t).contains(p));
            } else if x >= f.cut_c(o) {
                assert(cells(r).contains(p));
            } else if y >= f.cut_d(o) {
                assert(cells(b).contains(p));
            } else {
                assert(cells(o).contains(p));
            }
        }
        assert(union4 =~= cells(f).difference(cells(o)));
    }
}

/// Cut-out tiling: for a rectangle and a sub-rectangle fully inside it, the
/// cut fragments plus the sub-rectangle are pairwise disjoint and their
/// areas sum to the area of the whole.
pub proof fn lemma_cut_out_tiling(f: Rect, o: Rect)
    requires
        f.wf(),
        o.wf(),
        f.spec_contains(o),
    ensures
        pairwise_disjoint(f.spec_cut_out(o).push(o)),
        f.spec_area() == o.spec_area() + sum_areas(f.spec_cut_out(o)),
{
    let cut = f.spec_cut_out(o);
    lemma_cut_out_properties(f, o);
    assert(pairwise_disjoint(cut.push(o))) by {
        assert forall|i: int, j: int|
            0 <= i < cut.push(o).len() && 0 <= j < cut.push(o).len() && i != j implies !(
        #[trigger] cut.push(o)[i].spec_overlaps(cut.push(o)[j])) by {
            if i < cut.len() && j < cut.len() {
                assert(cut.push(o)[i] == cut[i] && cut.push(o)[j] == cut[j]);
            } else if i < cut.len() {
                assert(cut.push(o)[i] == cut[i] && cut.push(o)[j] == o);
            } else {
                assert(cut.push(o)[i] == o && cut.push(o)[j] == cut[j]);
                assert(!cut[j].spec_overlaps(o));
            }
        }
    }
    lemma_disjoint_sum_areas(cut);
    lemma_cells_area(f);
    lemma_cells_area(o);
    lemma_contains_cells(f, o);
    assert(cells(f).intersect(cells(o)) =~= cells(o));
    lemma_set_difference_len(cells(f), cells(o));
}

/// Merge correctness: two mergeable well-formed rectangles do not overlap,
/// and their merge is well formed, covers exactly their cells, and has
/// exactly the sum of their areas.
pub proof fn lemma_merge_area(a: Rect, b: Rect)
    requires
        a.wf(),
        b.wf(),
        a.spec_can_merge(b),
    ensures
        !a.spec_overlaps(b),
        a.spec_merge(b).wf(),
        cells(a.spec_merge(b)) == cells(a).union(cells(b)),
        a.spec_merge(b).spec_area() == a.spec_area() + b.spec_area(),
{
    let m = a.spec_merge(b);
    assert(cells(m) =~= cells(a).union(cells(b)));
    lemma_shared_cell_overlaps(a, b);
    assert(cells(a).disjoint(cells(b)));
    lemma_cells_area(a);
    lemma_cells_area(b);
    lemma_cells_area(m);
    lemma_set_disjoint_lens(cells(a), cells(b));
    assert(cells(a) + cells(b) == cells(a).union(cells(b)));
}

/// A rectangle overlapping a part of a container overlaps the container.
pub proof fn lemma_overlap_monotonic(container: Rect, part: Rect, other: Rect)
    requires
        container.spec_contains(part),
        part.spec_overlaps(other),
    ensures
        container.spec_overlaps(other),
{
}

/// The cells of a concatenation are the union of the cells of the parts.
pub proof fn lemma_cells_of_seq_concat(a: Seq<Rect>, b: Seq<Rect>)
    ensures
        cells_of_seq(a + b) == cells_of_seq(a).union(cells_of_seq(b)),
    decreases b.len(),
{
    if b.len() == 0 {
        assert(a + b =~= a);
        assert(cells_of_seq(a).union(cells_of_seq(b)) =~= cells_of_seq(a));
    } else {
        lemma_cells_of_seq_concat(a, b.drop_last());
        assert((a + b).drop_last() =~= a + b.drop_last());
        assert((a + b).last() == b.last());
        assert(cells_of_seq(a).union(cells_of_seq(b.drop_last())).union(cells(b.last()))
            =~= cells_of_seq(a).union(cells_of_seq(b)));
    }
}

/// Replacing one rectangle by a merge of it with another and removing the
/// other preserves the covered cells.
pub proof fn lemma_cells_update_remove(s: Seq<Rect>, i: int, j: int, m: Rect)
    requires
        0 <= i < s.len(),
        0 <= j < s.len(),
        i != j,
        cells(m) == cells(s[i]).union(cells(s[j])),
    ensures
        cells_of_seq(s.update(i, m).remove(j)) == cells_of_seq(s),
{
    let s2 = s.update(i, m).remove(j);
    let iq = if i < j {
        i
    } else {
        i - 1
    };
    lemma_cells_of_seq_contains(s);
    lemma_cells_of_seq_contains(s2);
    assert forall|p: (int, int)| #[trigger] cells_of_seq(s2).contains(p) implies cells_of_seq(
        s,
    ).contains(p) by {
        let n = choose|n: int| 0 <= n < s2.len() && #[trigger] cells(s2[n]).contains(p);
        let n2 = if n < j {
            n
        } else {
            n + 1
        };
        if n2 == i {
            assert(s2[n] == m);
            if cells(s[i]).contains(p) {
            } else {
                assert(cells(s[j]).contains(p));
            }
        } else {
            assert(s2[n] == s[n2]);
        }
    }
    assert forall|p: (int, int)| #[trigger] cells_of_seq(s).contains(p) implies cells_of_seq(
        s2,
    ).contains(p) by {
        let n = choose|n: int| 0 <= n < s.len() && #[trigger] cells(s[n]).contains(p);
        if n == j || n == i {
            assert(cells(m).contains(p));
            assert(s2[iq] == m);
            assert(cells(s2[iq]).contains(p));
        } else {
            let nq = if n < j {
                n
            } else {
                n - 1
            };
            assert(s2[nq] == s[n]);
            assert(cells(s2[nq]).contains(p));
        }
    }
    assert(cells_of_seq(s2) =~= cells_of_seq(s));
}

/// The bounding box of a non-empty sequence contains every rectangle in it.
pub proof fn lemma_bbox_encloses(s: Seq<Rect>)
    requires
        s.len() > 0,
    ensures
        forall|i: int| 0 <= i < s.len() ==> bbox_spec(s).spec_contains(#[trigger] s[i]),
        all_wf(s) ==> bbox_spec(s).wf(),
    decreases s.len(),
{
    if s.len() == 1 {
    } else {
        let pre = s.drop_last();
        lemma_bbox_encloses(pre);
        assert(all_wf(s) ==> all_wf(pre));
        assert forall|i: int| 0 <= i < s.len() implies bbox_spec(s).spec_contains(
            #[trigger] s[i],
        ) by {
            if i < s.len() - 1 {
                assert(bbox_spec(pre).spec_contains(pre[i]));
            }
        }
    }
}

/// A rectangle containing every member of a non-empty sequence contains its
/// bounding box.
pub proof fn lemma_bbox_within(s: Seq<Rect>, bound: Rect)
    requires
        s.len() > 0,
        forall|i: int| 0 <= i < s.len() ==> bound.spec_contains(#[trigger] s[i]),
    ensures
        bound.spec_contains(bbox_spec(s)),
    decreases s.len(),
{
    if s.len() == 1 {
    } else {
        let pre = s.drop_last();
        assert forall|i: int| 0 <= i < pre.len() implies bound.spec_contains(
            #[trigger] pre[i],
        ) by {
            assert(pre[i] == s[i]);
        }
        lemma_bbox_within(pre, bound);
    }
}

/// Pairwise disjoint well-formed rectangles inside a bounding rectangle
/// cannot together cover more area than it has.
pub proof fn lemma_packed_area_bounded(s: Seq<Rect>, bound: Rect)
    requires
        all_wf(s),
        pairwise_disjoint(s),
        bound.wf(),
        forall|i: int| 0 <= i < s.len() ==> bound.spec_contains(#[trigger] s[i]),
    ensures
        0 <= sum_areas(s) <= bound.spec_area(),
{
    lemma_disjoint_sum_areas(s);
    lemma_cells_area(bound);
    assert(cells_of_seq(s).subset_of(cells(bound))) by {
        lemma_cells_of_seq_contains(s);
        assert forall|p: (int, int)| #[trigger] cells_of_seq(s).contains(p) implies cells(
            bound,
        ).contains(p) by {
            let i = choose|i: int| 0 <= i < s.len() && #[trigger] cells(s[i]).contains(p);
            lemma_contains_cells(bound, s[i]);
        }
    }
    lemma_len_subset(cells_of_seq(s), cells(bound));
}

} // verus!
