//! A verified grid path-search library.
//!
//! A rectangular grid with a start, a goal and walls is loaded from a
//! textual description (`parse`), and searched by three strategies —
//! breadth-first, greedy best-first, and A* (`search`) — each of which
//! mutates its own copy of the grid to record exploration and reports the
//! number of expansion steps and the discovered path length.

pub mod grid;
pub mod parse;
pub mod search;
