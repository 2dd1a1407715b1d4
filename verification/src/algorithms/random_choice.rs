//! Chooses a rectangle uniformly at random from a candidate set.

use vstd::prelude::*;
use crate::geometry::Rect;
use crate::rng::gen_range_usize;
use crate::traits::RectChoiceAlgorithm;

verus! {

/// Chooses a uniformly random candidate; index 0 when there are no
/// candidates. Reports itself as nondeterministic so orchestration code can
/// decide to fix a seedable source instead for reproducibility.
pub struct RandomRectChoiceAlgorithm;

impl RectChoiceAlgorithm for RandomRectChoiceAlgorithm {
    open spec fn choose_req(&self, packing: Seq<Rect>, choices: Seq<Rect>) -> bool {
        true
    }

    /// Nothing beyond the bound can be promised of a random draw; without
    /// candidates the choice falls back to index 0.
    open spec fn chosen(&self, packing: Seq<Rect>, choices: Seq<Rect>, r: int) -> bool {
        choices.len() == 0 ==> r == 0
    }

    open spec fn nondeterministic(&self) -> bool {
        true
    }

    fn choose_rect(&self, packing: &Vec<Rect>, choices: &Vec<Rect>) -> (r: usize) {
        if choices.len() == 0 {
            return 0;
        }
        gen_range_usize(0, choices.len())
    }

    fn nondeterministic_hint(&self) -> (r: bool) {
        true
    }
}

} // verus!
