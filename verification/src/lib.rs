//! A verified solver for generalized N-in-a-row (tic-tac-toe on an N x N
//! board): exact minimax search with alpha-beta pruning, a transposition
//! cache keyed by the full board, and parallel scoring of candidate moves.

pub mod board;
pub mod model;
pub mod cache;
pub mod search;
