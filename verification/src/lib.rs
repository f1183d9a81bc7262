//! Shortest-path solver for the 3x3 sliding-tile puzzle.
//!
//! The crate is split into the state model ([`board`]), the estimators that
//! guide the search ([`heuristics`]), the priority frontier ([`min_heap`]),
//! the best-first engine itself ([`search`]), and the parity argument that
//! tells which boards have no solution ([`solvability`]).

pub mod board;
pub mod heuristics;
pub mod min_heap;
pub mod search;
pub mod solvability;
