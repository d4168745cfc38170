//! A verified solver for the 8-puzzle: a 3x3 sliding-tile board searched
//! with best-first search (uniform cost, or A* with the misplaced-tile or
//! Manhattan-distance heuristic).

pub mod board;
pub mod engine;
pub mod heuristic;

pub use board::{EightPuzzle, Moves};
pub use engine::{
    dequeueing_function, enqueueing_function, expand_node, search, EightPuzzleNode, Problem,
    SearchStats,
};
pub use heuristic::{
    manhattan_distance_heuristic, misplaced_tile_heuristic, uniform_search_heuristic, Heuristic,
};
