use rectpack::algorithms::iterative_random::IterativeRandomPackingAlgorithm;
use rectpack::algorithms::minmax::MinMaxRectChoiceAlgorithm;
use rectpack::algorithms::random_choice::RandomRectChoiceAlgorithm;
use rectpack::algorithms::random_packing::RandomPackingAlgorithm;
use rectpack::geometry::Rect;
use rectpack::heuristics::score::ScorePackingHeuristic;
use rectpack::traits::PackingAlgorithm;
use rectpack::traits::RectChoiceAlgorithm;

fn rect(x1: i32, y1: i32, x2: i32, y2: i32) -> Rect {
    Rect { x1, y1, x2, y2 }
}

fn pairwise_disjoint(rects: &[Rect]) -> bool {
    for (i, a) in rects.iter().enumerate() {
        for (j, b) in rects.iter().enumerate() {
            if i != j && a.overlaps(b) {
                return false;
            }
        }
    }
    true
}

fn sorted_sizes(rects: &[Rect]) -> Vec<(i32, i32)> {
    let mut sizes: Vec<(i32, i32)> = rects.iter().map(|r| (r.width(), r.height())).collect();
    sizes.sort();
    sizes
}

#[test]
fn min_choice_picks_first_smallest() {
    let alg = MinMaxRectChoiceAlgorithm::<true>;
    let packing: Vec<Rect> = vec![];
    let choices = vec![rect(0, 0, 2, 2), rect(0, 0, 1, 1), rect(10, 10, 11, 11)];
    assert_eq!(alg.choose_rect(&packing, &choices), 1);
}

#[test]
fn max_choice_picks_first_largest() {
    let alg = MinMaxRectChoiceAlgorithm::<false>;
    let packing: Vec<Rect> = vec![];
    let choices = vec![rect(0, 0, 2, 2), rect(0, 0, 3, 3), rect(5, 5, 8, 8)];
    assert_eq!(alg.choose_rect(&packing, &choices), 1);
}

#[test]
fn minmax_choice_of_empty_is_zero() {
    let alg = MinMaxRectChoiceAlgorithm::<true>;
    let packing: Vec<Rect> = vec![];
    let choices: Vec<Rect> = vec![];
    assert_eq!(alg.choose_rect(&packing, &choices), 0);
    assert!(!alg.nondeterministic_hint());
}

#[test]
fn random_choice_of_empty_is_zero() {
    let alg = RandomRectChoiceAlgorithm;
    let packing: Vec<Rect> = vec![];
    let choices: Vec<Rect> = vec![];
    assert_eq!(alg.choose_rect(&packing, &choices), 0);
}

#[test]
fn random_choice_is_in_bounds_and_varies() {
    let alg = RandomRectChoiceAlgorithm;
    let packing: Vec<Rect> = vec![];
    let choices = vec![rect(0, 0, 1, 1), rect(0, 0, 2, 2), rect(0, 0, 3, 3)];
    let mut seen = [false; 3];
    for _ in 0..300 {
        let idx = alg.choose_rect(&packing, &choices);
        assert!(idx < choices.len());
        seen[idx] = true;
    }
    // a uniform draw over three candidates hits every index in 300 tries
    assert!(seen[0] && seen[1] && seen[2]);
    assert!(alg.nondeterministic_hint());
}

#[test]
fn random_packing_of_infeasible_input_fails_cleanly() {
    // two 10x10 squares in a 20x20 outer bound: every pair of sampled
    // positions overlaps, so the 100-tries budget always runs out
    let alg = RandomPackingAlgorithm;
    let original = vec![rect(0, 0, 10, 10), rect(0, 0, 10, 10)];
    for _ in 0..10 {
        let mut rects = original.clone();
        let ok = alg.pack(&mut rects);
        assert!(!ok);
        // the buffer stays usable for a fresh retry: same length and sizes
        assert_eq!(rects.len(), original.len());
        assert_eq!(sorted_sizes(&rects), sorted_sizes(&original));
    }
}

#[test]
fn random_packing_success_is_valid() {
    let alg = RandomPackingAlgorithm;
    let original = vec![rect(0, 0, 2, 2), rect(0, 0, 1, 3), rect(0, 0, 3, 1)];
    let mut succeeded = false;
    for _ in 0..2000 {
        let mut rects = original.clone();
        if alg.pack(&mut rects) {
            succeeded = true;
            assert!(pairwise_disjoint(&rects));
            assert_eq!(sorted_sizes(&rects), sorted_sizes(&original));
            break;
        }
    }
    assert!(succeeded);
}

#[test]
fn random_packing_of_empty_succeeds() {
    let alg = RandomPackingAlgorithm;
    let mut rects: Vec<Rect> = vec![];
    assert!(alg.pack(&mut rects));
    assert!(rects.is_empty());
}

#[test]
fn iterative_packing_with_zero_trials_always_fails() {
    let alg = IterativeRandomPackingAlgorithm {
        heuristic: ScorePackingHeuristic,
        trials_per_iteration: 0,
    };
    let original = vec![rect(0, 0, 2, 2), rect(0, 0, 1, 1)];
    for _ in 0..10 {
        let mut rects = original.clone();
        assert!(!alg.pack(&mut rects));
        assert_eq!(rects.len(), original.len());
        assert_eq!(sorted_sizes(&rects), sorted_sizes(&original));
    }
}

#[test]
fn iterative_packing_success_is_valid() {
    let alg = IterativeRandomPackingAlgorithm {
        heuristic: ScorePackingHeuristic,
        trials_per_iteration: 10,
    };
    let original = vec![rect(0, 0, 2, 2), rect(0, 0, 1, 3), rect(0, 0, 3, 1)];
    let mut succeeded = false;
    for _ in 0..2000 {
        let mut rects = original.clone();
        if alg.pack(&mut rects) {
            succeeded = true;
            assert!(pairwise_disjoint(&rects));
            assert_eq!(sorted_sizes(&rects), sorted_sizes(&original));
            break;
        }
    }
    assert!(succeeded);
}

#[test]
fn iterative_packing_of_empty_succeeds() {
    let alg = IterativeRandomPackingAlgorithm {
        heuristic: ScorePackingHeuristic,
        trials_per_iteration: 3,
    };
    let mut rects: Vec<Rect> = vec![];
    assert!(alg.pack(&mut rects));
    assert!(rects.is_empty());
}
