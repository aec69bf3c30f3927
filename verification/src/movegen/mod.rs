//! Legal move generation.

pub mod laws;
pub mod legal;
pub mod o1;
pub mod pawn_bits;
pub mod rules;
pub mod study;
pub mod topology;
