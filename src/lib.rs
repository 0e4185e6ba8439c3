//! The flood-fill board puzzle: boards, their island graphs, and solvers.
pub mod bitset;
pub mod color;
pub mod util;
pub mod board;
pub mod graph;
pub mod solver;
pub mod game;
pub mod exact;
pub mod baseline;
