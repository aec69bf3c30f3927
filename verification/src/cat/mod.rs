//! Corridor attention: how hot each part of the board is for both races.

pub mod attention;
pub mod collect;
pub mod constants;
pub mod depth;
pub mod heat;
pub mod laws;
pub mod moves;
pub mod order;
pub mod placelaws;
pub mod prune;
