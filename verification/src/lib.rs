//! Titanium: a Quoridor engine core with machine-checked contracts.

pub mod ace;
pub mod arena;
pub mod bench_instr;
pub mod cat;
pub mod cli;
pub mod commands;
pub mod duel;
pub mod movegen;
pub mod path;
pub mod position;
pub mod search;
pub mod util;
pub mod wordlaws;
