//! Wall masks by shift algebra and pawn lookup tables.

pub mod gen;
pub mod lookup;
pub mod runtime;
