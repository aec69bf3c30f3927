//! Discovery of the pawn lookup tables.

pub mod geometry;
pub mod pawn;
pub mod pseudo_moves;
