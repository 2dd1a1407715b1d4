//! Chooses the rectangle of extreme area from a candidate set.

use vstd::prelude::*;
use crate::geometry::Rect;
use crate::traits::RectChoiceAlgorithm;

verus! {

/// Chooses the smallest rectangle by area.
pub type MinRectChoiceAlgorithm = MinMaxRectChoiceAlgorithm<true>;

/// Chooses the largest rectangle by area.
pub type MaxRectChoiceAlgorithm = MinMaxRectChoiceAlgorithm<false>;

/// Chooses the rectangle of extreme area: the smallest when `CHOOSE_MIN`,
/// the largest otherwise. The first extremum wins ties; index 0 is returned
/// when there are no choices.
pub struct MinMaxRectChoiceAlgorithm<const CHOOSE_MIN: bool>;

impl<const CHOOSE_MIN: bool> RectChoiceAlgorithm for MinMaxRectChoiceAlgorithm<CHOOSE_MIN> {
    /// Every candidate's area must fit in `i32`.
    open spec fn choose_req(&self, packing: Seq<Rect>, choices: Seq<Rect>) -> bool {
        forall|i: int| 0 <= i < choices.len() ==> (#[trigger] choices[i]).area_fits()
    }

    /// The first index of extreme area, or 0 when there are no choices.
    open spec fn chosen(&self, packing: Seq<Rect>, choices: Seq<Rect>, r: int) -> bool {
        if choices.len() == 0 {
            r == 0
        } else {
            &&& 0 <= r < choices.len()
            &&& forall|k: int|
                0 <= k < choices.len() ==> if CHOOSE_MIN {
                    choices[r].spec_area() <= (#[trigger] choices[k]).spec_area()
                } else {
                    choices[r].spec_area() >= (#[trigger] choices[k]).spec_area()
                }
            &&& forall|j: int|
                0 <= j < r ==> if CHOOSE_MIN {
                    choices[r].spec_area() < (#[trigger] choices[j]).spec_area()
                } else {
                    choices[r].spec_area() > (#[trigger] choices[j]).spec_area()
                }
        }
    }

    open spec fn nondeterministic(&self) -> bool {
        false
    }

    fn choose_rect(&self, packing: &Vec<Rect>, choices: &Vec<Rect>) -> (r: usize) {
        if choices.len() == 0 {
            return 0;
        }
        let mut besti: usize = 0;
        let mut best_area: i32 = choices[0].area();
        for idx in 1..choices.len()
            invariant
                forall|i: int| 0 <= i < choices@.len() ==> (#[trigger] choices@[i]).area_fits(),
                besti < idx <= choices@.len(),
                best_area == choices@[besti as int].spec_area(),
                forall|k: int|
                    0 <= k < idx ==> if CHOOSE_MIN {
                        choices@[besti as int].spec_area() <= (#[trigger] choices@[k]).spec_area()
                    } else {
                        choices@[besti as int].spec_area() >= (#[trigger] choices@[k]).spec_area()
                    },
                forall|j: int|
                    0 <= j < besti ==> if CHOOSE_MIN {
                        choices@[besti as int].spec_area() < (#[trigger] choices@[j]).spec_area()
                    } else {
                        choices@[besti as int].spec_area() > (#[trigger] choices@[j]).spec_area()
                    },
        {
            let a = choices[idx].area();
            if CHOOSE_MIN {
                if a < best_area {
                    besti = idx;
                    best_area = a;
                }
            } else {
                if a > best_area {
                    besti = idx;
                    best_area = a;
                }
            }
        }
        besti
    }

    fn nondeterministic_hint(&self) -> (r: bool) {
        false
    }
}

} // verus!
