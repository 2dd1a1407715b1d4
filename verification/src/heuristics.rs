//! Packing-quality heuristics over valid (pairwise non-overlapping)
//! packings.

pub mod closeness;
pub mod score;
