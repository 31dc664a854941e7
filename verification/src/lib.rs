//! Counting engine for perfect-clear feasibility on a falling-block puzzle
//! board: pattern expansion into shape sequences, fuzzy-order expansion,
//! and a depth-first aggregation over a placement-dependency graph backed
//! by a memoized reachability search.

pub mod aggregator;
pub mod board;
pub mod counter;
pub mod fuzzy;
pub mod oracle;
pub mod pattern;
pub mod placement;
pub mod sequences;
pub mod shapes;

pub use aggregator::{Aggregator, IndexNode, Item, Nodes};
pub use board::{Board, ClippedBoard, Lines};
pub use counter::ShapeCounter;
pub use fuzzy::{FuzzyShape, FuzzyShapeOrder};
pub use pattern::{Pattern, PatternCreationError, PatternElement};
pub use placement::{MoveRules, PieceCells, PlacedBlocks};
pub use sequences::{BitShapes, ShapeOrder, ShapeSequence};
pub use shapes::Shape;

use vstd::prelude::*;

verus! {

/// The number of distinct piece shapes.
pub const SHAPE_COUNT: usize = 7;

} // verus!
