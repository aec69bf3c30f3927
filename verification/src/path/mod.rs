//! Reachability and distance on the pawn grid.

pub mod bfs;
pub mod distance;
pub mod flood;
pub mod graph;
pub mod masks;
pub mod parallel;
pub mod route;
