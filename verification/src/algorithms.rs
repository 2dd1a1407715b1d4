//! Packing and rectangle-choice strategies.

pub mod iterative_random;
pub mod minmax;
pub mod random_choice;
pub mod random_packing;
