use rectpack::geometry::Interval;
use rectpack::geometry::Rect;
use rectpack::geometry::Side;

fn rect(x1: i32, y1: i32, x2: i32, y2: i32) -> Rect {
    Rect { x1, y1, x2, y2 }
}

#[test]
fn interval_new_and_len() {
    let a = Interval::new(2, 9);
    assert_eq!(a.start, 2);
    assert_eq!(a.end, 9);
    assert_eq!(a.len(), 7);
    assert_eq!(Interval::new(5, 5).len(), 0);
}

#[test]
fn interval_overlaps_is_open() {
    let a = Interval::new(0, 10);
    let b = Interval::new(10, 20);
    // touching endpoints do not overlap
    assert!(!a.overlaps(&b));
    assert!(!b.overlaps(&a));
    let c = Interval::new(9, 20);
    assert!(a.overlaps(&c));
    assert!(c.overlaps(&a));
}

#[test]
fn interval_overlap_symmetry_samples() {
    let samples = [
        (Interval::new(0, 5), Interval::new(3, 8)),
        (Interval::new(0, 5), Interval::new(5, 8)),
        (Interval::new(-3, -1), Interval::new(-2, 4)),
        (Interval::new(0, 0), Interval::new(0, 0)),
    ];
    for (a, b) in samples.iter() {
        assert_eq!(a.overlaps(b), b.overlaps(a));
    }
}

#[test]
fn interval_contains_is_inclusive_and_reflexive() {
    let a = Interval::new(0, 10);
    assert!(a.contains(&Interval::new(0, 10)));
    assert!(a.contains(&Interval::new(3, 10)));
    assert!(!a.contains(&Interval::new(-1, 10)));
    for iv in [a, Interval::new(-5, -5), Interval::new(7, 9)].iter() {
        assert!(iv.contains(iv));
    }
}

#[test]
fn interval_intersection() {
    let a = Interval::new(0, 10);
    let b = Interval::new(4, 15);
    let i = a.intersection(&b);
    assert_eq!((i.start, i.end), (4, 10));
    // disjoint intervals intersect in the zero interval at the origin
    let d = a.intersection(&Interval::new(20, 30));
    assert_eq!((d.start, d.end), (0, 0));
}

#[test]
fn rect_dimensions() {
    let r = rect(1, 2, 11, 22);
    assert_eq!(r.width(), 10);
    assert_eq!(r.height(), 20);
    assert_eq!(r.area(), 200);
    let s = r.size();
    assert_eq!((s.width, s.height), (10, 20));
    let h = r.horz();
    assert_eq!((h.start, h.end), (1, 11));
    let v = r.vert();
    assert_eq!((v.start, v.end), (2, 22));
}

#[test]
fn rect_is_empty() {
    assert!(rect(0, 0, 0, 5).is_empty());
    assert!(rect(0, 0, 5, 0).is_empty());
    assert!(!rect(0, 0, 1, 1).is_empty());
}

#[test]
fn rect_overlaps_and_contains() {
    let a = rect(0, 0, 10, 10);
    assert!(!a.overlaps(&rect(10, 0, 20, 10)));
    assert!(a.overlaps(&rect(9, 9, 20, 20)));
    assert_eq!(a.overlaps(&rect(9, 9, 20, 20)), rect(9, 9, 20, 20).overlaps(&a));
    assert!(a.contains(&rect(0, 0, 10, 10)));
    assert!(a.contains(&rect(2, 3, 4, 5)));
    assert!(!a.contains(&rect(2, 3, 4, 11)));
    assert!(a.contains(&a));
}

#[test]
fn rect_merge_defined_iff_can_merge() {
    let a = rect(0, 0, 10, 10);
    let stacked = rect(0, 10, 10, 20);
    assert!(a.can_merge(&stacked));
    let m = a.merge(&stacked).unwrap();
    assert_eq!((m.x1, m.y1, m.x2, m.y2), (0, 0, 10, 20));
    assert_eq!(m.area(), a.area() + stacked.area());

    let beside = rect(10, 0, 15, 10);
    assert!(a.can_merge(&beside));
    let m2 = a.merge(&beside).unwrap();
    assert_eq!((m2.x1, m2.y1, m2.x2, m2.y2), (0, 0, 15, 10));
    assert_eq!(m2.area(), a.area() + beside.area());

    // adjacency along a partial edge does not merge
    let partial = rect(0, 10, 9, 20);
    assert!(!a.can_merge(&partial));
    assert!(a.merge(&partial).is_none());
    // overlap does not merge
    assert!(a.merge(&rect(5, 5, 15, 15)).is_none());
}

#[test]
fn amount_touching_reports_first_side() {
    let a = rect(10, 10, 20, 20);
    assert!(matches!(a.amount_touching(&rect(0, 12, 10, 18)), Some((Side::Left, 6))));
    assert!(matches!(a.amount_touching(&rect(12, 0, 18, 10)), Some((Side::Top, 6))));
    assert!(matches!(a.amount_touching(&rect(20, 12, 30, 18)), Some((Side::Right, 6))));
    assert!(matches!(a.amount_touching(&rect(12, 20, 18, 30)), Some((Side::Bottom, 6))));
    assert!(a.amount_touching(&rect(100, 100, 110, 110)).is_none());
    // a corner-only touch is attributed to exactly one side, with zero length
    assert!(matches!(a.amount_touching(&rect(0, 0, 10, 10)), Some((Side::Left, 0))));
}

#[test]
fn cut_out_fragments_exact() {
    let r = rect(0, 0, 10, 10);
    let o = rect(2, 3, 5, 7);
    let frags = r.cut_out(&o);
    assert_eq!(frags.len(), 4);
    let left = frags[0];
    let top = frags[1];
    let right = frags[2];
    let bottom = frags[3];
    assert_eq!((left.x1, left.y1, left.x2, left.y2), (0, 0, 2, 7));
    assert_eq!((top.x1, top.y1, top.x2, top.y2), (2, 0, 10, 3));
    assert_eq!((right.x1, right.y1, right.x2, right.y2), (5, 3, 10, 10));
    assert_eq!((bottom.x1, bottom.y1, bottom.x2, bottom.y2), (0, 7, 5, 10));
}

#[test]
fn cut_out_tiling_conserves_area() {
    let r = rect(0, 0, 10, 10);
    let o = rect(2, 3, 5, 7);
    let frags = r.cut_out(&o);
    let mut total = o.area();
    for f in frags.iter() {
        total += f.area();
        assert!(!f.overlaps(&o));
        assert!(r.contains(f));
    }
    assert_eq!(total, r.area());
    for (i, a) in frags.iter().enumerate() {
        for (j, b) in frags.iter().enumerate() {
            if i != j {
                assert!(!a.overlaps(b));
            }
        }
    }
}

#[test]
fn cut_out_of_whole_is_empty() {
    let r = rect(1, 1, 9, 9);
    assert_eq!(r.cut_out(&r).len(), 0);
}

#[test]
fn bbox_folds_min_and_max() {
    let rects = vec![rect(0, 5, 10, 10), rect(-3, 7, 4, 20), rect(1, 1, 2, 2)];
    let bb = Rect::bbox(&rects);
    assert_eq!((bb.x1, bb.y1, bb.x2, bb.y2), (-3, 1, 10, 20));
    let empty: Vec<Rect> = vec![];
    let zero = Rect::bbox(&empty);
    assert_eq!((zero.x1, zero.y1, zero.x2, zero.y2), (0, 0, 0, 0));
}

#[test]
fn inverse_of_exact_tiling_is_empty_of_area() {
    let packing = vec![rect(0, 0, 20, 10), rect(0, 10, 20, 20)];
    let inv = Rect::inverse(&packing);
    let total: i32 = inv.iter().map(|r| r.area()).sum();
    assert_eq!(total, 0);
}

#[test]
fn inverse_fills_the_gap() {
    let packing = vec![rect(0, 0, 10, 10), rect(20, 0, 30, 10)];
    let inv = Rect::inverse(&packing);
    assert_eq!(inv.len(), 1);
    let g = inv[0];
    assert_eq!((g.x1, g.y1, g.x2, g.y2), (10, 0, 20, 10));
}

#[test]
fn inverse_conserves_area_and_disjointness() {
    let packing = vec![
        rect(0, 0, 7, 4),
        rect(9, 1, 12, 9),
        rect(0, 6, 5, 11),
        rect(14, 0, 16, 2),
    ];
    let inv = Rect::inverse(&packing);
    let bb = Rect::bbox(&packing);
    let packed: i32 = packing.iter().map(|r| r.area()).sum();
    let free: i32 = inv.iter().map(|r| r.area()).sum();
    assert_eq!(bb.area(), packed + free);
    for f in inv.iter() {
        for p in packing.iter() {
            assert!(!f.overlaps(p));
        }
        assert!(bb.contains(f));
        assert!(!f.is_empty());
    }
    for (i, a) in inv.iter().enumerate() {
        for (j, b) in inv.iter().enumerate() {
            if i != j {
                assert!(!a.overlaps(b));
                assert!(!a.can_merge(b));
            }
        }
    }
}

#[test]
fn simplify_merges_adjacent() {
    let mut rects = vec![rect(0, 0, 10, 10), rect(0, 10, 10, 20)];
    Rect::simplify(&mut rects);
    assert_eq!(rects.len(), 1);
    let m = rects[0];
    assert_eq!((m.x1, m.y1, m.x2, m.y2), (0, 0, 10, 20));
}

#[test]
fn simplify_twice_equals_once() {
    let mut rects = vec![
        rect(0, 0, 4, 4),
        rect(4, 0, 8, 4),
        rect(0, 4, 8, 8),
        rect(20, 20, 24, 28),
    ];
    Rect::simplify(&mut rects);
    let once: Vec<(i32, i32, i32, i32)> = rects.iter().map(|r| (r.x1, r.y1, r.x2, r.y2)).collect();
    Rect::simplify(&mut rects);
    let twice: Vec<(i32, i32, i32, i32)> = rects.iter().map(|r| (r.x1, r.y1, r.x2, r.y2)).collect();
    assert_eq!(once, twice);
    for (i, a) in rects.iter().enumerate() {
        for (j, b) in rects.iter().enumerate() {
            if i != j {
                assert!(!a.can_merge(b));
            }
        }
    }
}

#[test]
fn simplify_keeps_total_area_with_a_degenerate_rect() {
    // a zero-area rectangle rides along; the mergeable pair still merges and
    // the summed area is unchanged
    let mut rects = vec![rect(0, 0, 10, 10), rect(0, 10, 10, 20), rect(5, 30, 5, 40)];
    let before: i32 = rects.iter().map(|r| r.area()).sum();
    Rect::simplify(&mut rects);
    let after: i32 = rects.iter().map(|r| r.area()).sum();
    assert_eq!(before, after);
    assert_eq!(rects.len(), 2);
}

#[test]
fn interval_len_of_reversed_is_negative() {
    assert_eq!(Interval::new(5, 3).len(), -2);
}

#[test]
fn inverse_of_empty_packing_is_a_zero_rect() {
    let packing: Vec<Rect> = vec![];
    let inv = Rect::inverse(&packing);
    assert_eq!(inv.len(), 1);
    assert!(inv[0].is_empty());
}
