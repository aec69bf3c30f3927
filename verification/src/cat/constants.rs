//! Corridor attention tuning, in centimeters of heat.

use vstd::prelude::*;

verus! {

/// Heat of a square on a shortest way, next to the pawn.
pub const CAT_CORRIDOR_CM: u16 = 200;

/// Walls at least this hot are always searched.
pub const CAT_HOT_CM: u16 = 160;

/// Heat up to here counts as cold.
pub const CAT_COLD_CM: u16 = 60;

/// Squares on ways longer than this many steps over the shortest carry no heat.
pub const MAX_RELEVANT_CORRIDOR_DELTA: u16 = 4;

/// Only squares on ways this close to the shortest can be bottlenecks.
pub const BOTTLENECK_CORRIDOR_DELTA: u16 = 1;

/// Extra heat of a bottleneck square.
pub const BOTTLENECK_BONUS_CM: u16 = 40;

/// Distance that stands for no way at all.
pub const DIST_PENALTY: u8 = 99;

} // verus!
