//! The board and its hash.

pub mod board;
pub mod zobrist;
