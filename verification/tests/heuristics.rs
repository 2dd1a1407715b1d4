use rectpack::geometry::Rect;
use rectpack::heuristics::closeness::side_contact_sums;
use rectpack::heuristics::score::ScorePackingHeuristic;
use rectpack::heuristics::score::score;
use rectpack::traits::PackingHeuristic;
use rectpack::traits::PackingHeuristicScore;

fn rect(x1: i32, y1: i32, x2: i32, y2: i32) -> Rect {
    Rect { x1, y1, x2, y2 }
}

#[test]
fn score_of_exact_tiling_is_zero() {
    // two stacked rectangles tiling a 20 by 20 bounding box: zero waste
    let packing = vec![rect(0, 0, 20, 10), rect(0, 10, 20, 20)];
    assert_eq!(score(&packing), 0);
}

#[test]
fn score_counts_uncovered_bounding_box_area() {
    let packing = vec![rect(0, 0, 10, 10), rect(20, 0, 30, 10)];
    // bounding box is 30 by 10 = 300, covered 200, waste 100
    assert_eq!(score(&packing), 100);
}

#[test]
fn score_of_empty_packing_is_zero() {
    let packing: Vec<Rect> = vec![];
    assert_eq!(score(&packing), 0);
}

#[test]
fn score_through_heuristic_trait() {
    let h = ScorePackingHeuristic;
    let packing = vec![rect(0, 0, 5, 5), rect(5, 0, 10, 5)];
    assert_eq!(h.score(&packing), 0);
    let gappy = vec![rect(0, 0, 5, 5), rect(6, 0, 11, 5)];
    assert_eq!(h.score(&gappy), 5);
}

#[test]
fn lower_waste_is_better() {
    let a: i32 = 3;
    let b: i32 = 7;
    assert!(PackingHeuristicScore::<ScorePackingHeuristic>::is_better_than(&a, &b));
    assert!(!PackingHeuristicScore::<ScorePackingHeuristic>::is_better_than(&b, &a));
    assert!(!PackingHeuristicScore::<ScorePackingHeuristic>::is_better_than(&a, &a));
}

#[test]
fn best_returns_first_minimum() {
    let scores: Vec<i32> = vec![5, 3, 7, 3];
    let best = <i32 as PackingHeuristicScore<ScorePackingHeuristic>>::best(&scores);
    assert_eq!(best, Some(1));
}

#[test]
fn best_of_empty_is_none() {
    let scores: Vec<i32> = vec![];
    let best = <i32 as PackingHeuristicScore<ScorePackingHeuristic>>::best(&scores);
    assert_eq!(best, None);
}

#[test]
fn contact_sums_per_side() {
    let a = rect(10, 10, 20, 20);
    let packing = vec![
        a,
        rect(0, 12, 10, 18),   // touches the left side over 6
        rect(0, 0, 10, 14),    // touches the left side over 4
        rect(12, 0, 18, 10),   // touches the top side over 6
        rect(20, 15, 30, 40),  // touches the right side over 5
        rect(11, 20, 19, 30),  // touches the bottom side over 8
        rect(100, 100, 110, 110),
    ];
    let (left, top, right, bottom) = side_contact_sums(&packing, &a);
    assert_eq!((left, top, right, bottom), (10, 6, 5, 8));
}

#[test]
fn contact_sums_ignore_self_and_distant() {
    let a = rect(0, 0, 5, 5);
    let packing = vec![a, rect(50, 50, 60, 60)];
    assert_eq!(side_contact_sums(&packing, &a), (0, 0, 0, 0));
}
