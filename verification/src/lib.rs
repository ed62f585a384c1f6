//! A sliding-hole puzzle on a square board of side `2^k` that is tiled by
//! L-shaped trominoes, with one cell (the hole) left empty.
//!
//! The crate builds the tiling ([`board`], [`tiling`]), derives the graph of
//! legal hole moves from it ([`moves`], [`graph`]), and computes the distance
//! between two hole positions in closed form ([`solver`]). That this distance is
//! the length of a shortest walk of the hole is proved in [`metric`], and that
//! the graph built from a board is the graph that the proof speaks of, in
//! [`frames`]. A search of the graph ([`search`]), chains of queries
//! ([`queries`]) and the state of a game in play ([`state`]) rest on these.

pub mod board;
pub mod cell;
pub mod frames;
pub mod graph;
pub mod metric;
pub mod moves;
pub mod queries;
pub mod search;
pub mod solver;
pub mod state;
pub mod tiling;
