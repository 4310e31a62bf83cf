//! A replay engine for rank-ordered binary trees.
//!
//! The library consumes a stream of edit instructions (`Add` / `Swap`),
//! incrementally builds one or two binary search trees inside an
//! index-addressed arena, and extracts a "message" string from the finished
//! tree shape: the symbols of the most populous depth, deepest on a tie,
//! ordered by ascending rank.
//!
//! A separate module solves an unrelated periodic-alignment puzzle over
//! "snails" moving on diagonals, via modular inverses and a
//! Chinese-remainder-style combination.

pub mod arena;
pub mod fault;
pub mod tree;
pub mod extract;
pub mod replay;
pub mod parse;
pub mod math;
pub mod snails;
