//! The cell-and-slot form of the game that the search works on.

pub mod backing;
pub mod bearing;
pub mod bridge;
pub mod certify;
pub mod certsize;
pub mod certmemo;
pub mod convert;
pub mod daemon;
pub mod deepen;
pub mod dump;
pub mod engines;
pub mod eval;
pub mod evallaws;
pub mod fields;
pub mod game;
pub mod lines;
pub mod lockstep;
pub mod mirror;
pub mod movelist;
pub mod node;
pub mod openrace;
pub mod order;
pub mod race;
pub mod racecache;
pub mod raceroot;
pub mod racelaws;
pub mod racetable;
pub mod reduction_sidecar;
pub mod replay;
pub mod report;
pub mod score;
pub mod search;
pub mod searchlaws;
pub mod session;
pub mod sessionlaws;
pub mod table;
pub mod think;
