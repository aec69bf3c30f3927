//! Bit sets, the wall grid and text helpers.

pub mod bits;
pub mod clock;
pub mod grid;
pub mod notation;
pub mod perft;
pub mod pow;
pub mod text;
