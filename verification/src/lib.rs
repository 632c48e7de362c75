//! Shortest-path search over rectangular mazes, together with a per-cell
//! trace of the scoring state that the search went through.
//!
//! The grid model records which walls between neighbouring cells have been
//! carved into passages; the search finds a minimum-hop path between two
//! cells of that grid, guided by the Manhattan-distance heuristic.

pub mod grid;
pub mod paths;
pub mod search;
pub mod trace;
