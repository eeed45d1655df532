//! A Xiangqi (Chinese chess) engine: board representation, move generation,
//! evaluation, search, notation and game review.
use vstd::prelude::*;

pub mod analysis;
pub mod board;
pub mod eval;
pub mod fen;
pub mod movegen;
pub mod notation;
pub mod openings;
pub mod puzzles;
pub mod search;
pub mod session;
pub mod text;
