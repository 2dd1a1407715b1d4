//! A toolkit for arranging axis-aligned rectangles without overlap: exact
//! integer geometry primitives, a decomposition of the free space left inside
//! a packing's bounding box, packing-quality scoring, and randomized packing
//! strategies built on top of them.

pub mod algorithms;
pub mod geometry;
pub mod heuristics;
mod rng;
pub mod tiling;
pub mod traits;

pub use geometry::Interval;
pub use geometry::Rect;
pub use geometry::Side;
pub use geometry::Size;
pub use traits::PackingAlgorithm;
pub use traits::PackingHeuristic;
pub use traits::PackingHeuristicScore;
pub use traits::RectChoiceAlgorithm;
