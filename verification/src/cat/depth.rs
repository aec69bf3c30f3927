//! How deep a move is worth searching, by its heat.

use vstd::prelude::*;

use crate::cat::constants::CAT_HOT_CM;
use crate::cat::moves::{cat_heat_ref_max, ref_max, CatHeatRefs};
use crate::cat::prune::{cuts_path, wall_intersects_path};
use crate::position::board::Move;

verus! {

/// Where the share of a heat between cold and the hottest lies: below 8, 18, 22
/// or 35 percent, or above.
#[derive(Clone, Copy, PartialEq, Eq, Structural)]
pub enum HeatBand {
    Frozen,
    Cold,
    Chilly,
    Cool,
    Warm,
}

/// The share of a heat, as far as depths go: its band, and how many of the
/// child's plies its curve keeps, rounded, at least one.
#[derive(Clone, Copy)]
pub struct HeatShare {
    pub band: HeatBand,
    pub scaled: u32,
}

/// The shares can be had for all heats.
pub open spec fn shares<H: Fn(i32, u16, u16, u32) -> HeatShare>(heat: H) -> bool {
    &&& forall|c: i32, m: u16, z: u16, d: u32| #[trigger] call_requires(heat, (c, m, z, d))
    &&& forall|c: i32, m: u16, z: u16, d: u32, r: HeatShare| #[trigger]
        call_ensures(heat, (c, m, z, d), r) ==> r.scaled >= 1
}

/// Hot enough whatever the rest of the board looks like.
pub fn is_cat_hot_corridor(cat_cm: i32) -> (r: bool)
    ensures
        r == (cat_cm >= CAT_HOT_CM),
{
    cat_cm >= CAT_HOT_CM as i32
}

/// Hot enough for the full depth: the share of the heat reaches the percentage,
/// as `reaches` tells. Without any heat on the board the fixed limit counts.
pub fn cat_heat_skips_lmr<F: Fn(i32, u16, u16, u16) -> bool>(
    cat_cm: i32,
    cat_max: u16,
    cold_cm: u16,
    hot_ratio_pct: u16,
    reaches: &F,
) -> (r: bool)
    requires
        call_requires(*reaches, (cat_cm, cat_max, cold_cm, hot_ratio_pct)),
    ensures
        cat_max == 0 ==> r == (cat_cm >= CAT_HOT_CM),
        cat_max != 0 ==> call_ensures(*reaches, (cat_cm, cat_max, cold_cm, hot_ratio_pct), r),
{
    if cat_max == 0 {
        return is_cat_hot_corridor(cat_cm);
    }
    reaches(cat_cm, cat_max, cold_cm, hot_ratio_pct)
}

/// Hot enough for the full depth.
pub fn is_lmr_heat_hot<F: Fn(i32, u16, u16, u16) -> bool>(
    cat_cm: i32,
    cat_max: u16,
    cold_cm: u16,
    hot_ratio_pct: u16,
    reaches: &F,
) -> (r: bool)
    requires
        call_requires(*reaches, (cat_cm, cat_max, cold_cm, hot_ratio_pct)),
    ensures
        cat_max == 0 ==> r == (cat_cm >= CAT_HOT_CM),
        cat_max != 0 ==> call_ensures(*reaches, (cat_cm, cat_max, cold_cm, hot_ratio_pct), r),
{
    cat_heat_skips_lmr(cat_cm, cat_max, cold_cm, hot_ratio_pct, reaches)
}

pub open spec fn least(a: int, b: int) -> int {
    if a < b {
        a
    } else {
        b
    }
}

pub open spec fn most(a: int, b: int) -> int {
    if a < b {
        b
    } else {
        a
    }
}

/// The plies that a share keeps of `full`: one when frozen, at most two when
/// cold, at most a third, but two, when cool.
pub open spec fn kept_plies(s: HeatShare, full: int) -> int {
    let used = match s.band {
        HeatBand::Frozen => 1,
        HeatBand::Cold => least(s.scaled as int, 2),
        HeatBand::Chilly | HeatBand::Cool => least(s.scaled as int, most(full / 3, 2)),
        HeatBand::Warm => s.scaled as int,
    };
    least(used, full)
}

/// `r` plies are kept for the heat.
pub open spec fn keeps_depth<H: Fn(i32, u16, u16, u32) -> HeatShare>(
    heat: H,
    cat_cm: i32,
    cat_ref_max: u16,
    cold_cm: u16,
    full: u32,
    r: int,
) -> bool {
    if full == 0 {
        r == 0
    } else if cat_ref_max == 0 || cat_cm <= 0 {
        r == 1
    } else {
        exists|s: HeatShare| #[trigger]
            call_ensures(heat, (cat_cm, cat_ref_max, cold_cm, full), s) && r == kept_plies(
                s,
                full as int,
            )
    }
}

/// Plies for a child, by the heat of the move.
pub fn cat_heat_child_depth<H: Fn(i32, u16, u16, u32) -> HeatShare>(
    cat_cm: i32,
    cat_ref_max: u16,
    cold_cm: u16,
    child_depth_full: u32,
    heat: &H,
) -> (r: u32)
    requires
        shares(*heat),
    ensures
        keeps_depth(*heat, cat_cm, cat_ref_max, cold_cm, child_depth_full, r as int),
        r <= child_depth_full,
        child_depth_full > 0 ==> r >= 1,
{
    if child_depth_full == 0 {
        return 0;
    }
    if cat_ref_max == 0 || cat_cm <= 0 {
        return 1;
    }
    let s: HeatShare = heat(cat_cm, cat_ref_max, cold_cm, child_depth_full);
    let mut used: u32 = s.scaled;
    match s.band {
        HeatBand::Frozen => {
            used = 1;
        },
        HeatBand::Cold => {
            if used > 2 {
                used = 2;
            }
        },
        HeatBand::Chilly | HeatBand::Cool => {
            let mut cap: u32 = child_depth_full / 3;
            if cap < 2 {
                cap = 2;
            }
            if used > cap {
                used = cap;
            }
        },
        HeatBand::Warm => {},
    }
    if used > child_depth_full {
        used = child_depth_full;
    }
    used
}

/// Plies that the heat of a move takes off its child.
pub fn cat_heat_depth_reduction<H: Fn(i32, u16, u16, u32) -> HeatShare>(
    cat_cm: i32,
    cat_ref_max: u16,
    cold_cm: u16,
    child_depth_full: u32,
    heat: &H,
) -> (r: u32)
    requires
        shares(*heat),
    ensures
        keeps_depth(*heat, cat_cm, cat_ref_max, cold_cm, child_depth_full, child_depth_full - r),
        r <= child_depth_full,
        child_depth_full > 0 ==> r < child_depth_full,
{
    let used: u32 = cat_heat_child_depth(cat_cm, cat_ref_max, cold_cm, child_depth_full, heat);
    child_depth_full - used
}

/// The band that counts for a late move: without heat it is frozen.
pub open spec fn late_band(cat_cm: i32, cat_ref: u16, band: HeatBand) -> HeatBand {
    if cat_ref > 0 && cat_cm > 0 {
        band
    } else {
        HeatBand::Frozen
    }
}

/// The whole reduction of a late move: its heat's, the base on cold moves, two
/// more for a wall without heat or one more for a cold wall off the path.
pub open spec fn total_spec(
    mv: Move,
    cat_cm: int,
    band: HeatBand,
    by_heat: int,
    base_r: int,
    child_full: int,
    cuts: bool,
    relevant: bool,
) -> int {
    let colder = band == HeatBand::Frozen || band == HeatBand::Cold || band == HeatBand::Chilly;
    let a = by_heat + (if colder {
        base_r
    } else {
        0
    });
    let b = if mv is Wall && cat_cm == 0 {
        a + 2
    } else if mv is Wall && !cuts && !relevant && band != HeatBand::Warm {
        a + 1
    } else {
        a
    };
    if child_full <= 1 {
        0
    } else {
        least(b, child_full - 1)
    }
}

/// One less, but not below nothing.
pub open spec fn less_one(depth: u32) -> u32 {
    if depth == 0 {
        0
    } else {
        (depth - 1) as u32
    }
}

/// The heat takes `by_heat` off a child of `full` plies, and `s` is its share.
pub open spec fn total_from<H: Fn(i32, u16, u16, u32) -> HeatShare>(
    heat: H,
    mv: Move,
    cat_cm: i32,
    cat_ref: u16,
    cold_cm: u16,
    full: u32,
    by_heat: int,
    s: HeatShare,
) -> bool {
    &&& keeps_depth(heat, cat_cm, cat_ref, cold_cm, full, full - by_heat)
    &&& cat_ref > 0 && cat_cm > 0 ==> call_ensures(heat, (cat_cm, cat_ref, cold_cm, full), s)
}

/// The reduction of a late move by its heat and its place.
pub fn cat_lmr_total_reduction<H: Fn(i32, u16, u16, u32) -> HeatShare>(
    mv: Move,
    cat_cm: i32,
    refs: CatHeatRefs,
    cold_cm: u16,
    depth: u32,
    base_r: u32,
    opp_path: &[u8],
    opp_path_len: usize,
    corridor_relevant: bool,
    heat: &H,
) -> (r: u32)
    requires
        shares(*heat),
        opp_path_len <= opp_path@.len(),
        mv matches Move::Wall { row, col, .. } ==> row < 255 && col < 255,
    ensures
        exists|by_heat: int, s: HeatShare| #[trigger]
            total_from(*heat, mv, cat_cm, ref_max(mv, refs), cold_cm, less_one(depth), by_heat, s)
                && r == total_spec(
                mv,
                cat_cm as int,
                late_band(cat_cm, ref_max(mv, refs), s.band),
                by_heat,
                base_r as int,
                less_one(depth) as int,
                cuts_path(mv, opp_path@, opp_path_len as int),
                corridor_relevant,
            ),
{
    let child_full: u32 = if depth == 0 {
        0
    } else {
        depth - 1
    };
    let cat_ref: u16 = cat_heat_ref_max(mv, refs);
    let share: HeatShare = if cat_ref > 0 && cat_cm > 0 {
        heat(cat_cm, cat_ref, cold_cm, child_full)
    } else {
        HeatShare { band: HeatBand::Frozen, scaled: 1 }
    };
    let by_heat: u32 = cat_heat_depth_reduction(cat_cm, cat_ref, cold_cm, child_full, heat);
    let mut reduction: u64 = by_heat as u64;
    match share.band {
        HeatBand::Frozen | HeatBand::Cold | HeatBand::Chilly => {
            reduction = reduction + base_r as u64;
        },
        _ => {},
    }
    let wall: bool = match mv {
        Move::Wall { .. } => true,
        Move::Pawn { .. } => false,
    };
    let warm: bool = match share.band {
        HeatBand::Warm => true,
        _ => false,
    };
    if wall && cat_cm == 0 {
        reduction = reduction + 2;
    } else if wall && !wall_intersects_path(mv, opp_path, opp_path_len) && !corridor_relevant
        && !warm {
        reduction = reduction + 1;
    }
    let cap: u64 = if child_full <= 1 {
        0
    } else {
        (child_full - 1) as u64
    };
    proof {
        assert(total_from(
            *heat,
            mv,
            cat_cm,
            cat_ref,
            cold_cm,
            child_full,
            by_heat as int,
            share,
        ));
    }
    let r: u32 = if reduction < cap {
        reduction as u32
    } else {
        cap as u32
    };
    proof {
        let band = late_band(cat_cm, cat_ref, share.band);
        assert(child_full == less_one(depth));
        assert(band == share.band);
        assert(r == least(reduction as int, cap as int));
        assert(r == total_spec(
            mv,
            cat_cm as int,
            band,
            by_heat as int,
            base_r as int,
            child_full as int,
            cuts_path(mv, opp_path@, opp_path_len as int),
            corridor_relevant,
        ));
    }
    r
}

/// Upper bounds of the heat that may be chosen.
pub const CAT_V16_LMR_CEILINGS: [u16; 3] = [500, 800, 1000];

/// The one without a choice.
pub const CAT_V16_LMR_CEILING_DEFAULT: u16 = 800;

/// Percentage of the hottest at or below which a move is fringe.
pub const CAT_V16_FRINGE_PCT_DEFAULT: u16 = 5;

/// More per helper.
pub const CAT_V16_FRINGE_PCT_STEP_PER_WORKER: u16 = 10;

/// At most this.
pub const CAT_V16_FRINGE_PCT_MAX: u16 = 70;

/// The fringe of a worker: helpers are bolder. The number counts modulo 65536.
pub open spec fn worker_fringe(worker_id: int) -> int {
    if worker_id == 0 {
        CAT_V16_FRINGE_PCT_DEFAULT as int
    } else {
        least(
            worker_id % 65_536 * CAT_V16_FRINGE_PCT_STEP_PER_WORKER,
            CAT_V16_FRINGE_PCT_MAX as int,
        )
    }
}

/// The fringe of a worker.
pub fn cat_v16_lmr_fringe_pct_for_worker(worker_id: usize) -> (r: u16)
    ensures
        r == worker_fringe(worker_id as int),
{
    if worker_id == 0 {
        CAT_V16_FRINGE_PCT_DEFAULT
    } else {
        let w: u32 = (worker_id % 65_536) as u32 * CAT_V16_FRINGE_PCT_STEP_PER_WORKER as u32;
        if w < CAT_V16_FRINGE_PCT_MAX as u32 {
            w as u16
        } else {
            CAT_V16_FRINGE_PCT_MAX
        }
    }
}

/// A chosen ceiling, if it is one of the three, or the default.
pub fn cat_v16_lmr_ceiling(choice: Option<u16>) -> (r: u16)
    ensures
        r == (match choice {
            Some(v) => if CAT_V16_LMR_CEILINGS@.contains(v) {
                v
            } else {
                CAT_V16_LMR_CEILING_DEFAULT
            },
            None => CAT_V16_LMR_CEILING_DEFAULT,
        }),
{
    let mut i: usize = 0;
    let all: [u16; 3] = CAT_V16_LMR_CEILINGS;
    match choice {
        None => CAT_V16_LMR_CEILING_DEFAULT,
        Some(v) => {
            while i < 3
                invariant
                    i <= 3,
                    all == CAT_V16_LMR_CEILINGS,
                    choice == Some(v),
                    forall|j: int| 0 <= j < i ==> #[trigger] all@[j] != v,
                decreases 3 - i,
            {
                if all[i] == v {
                    assert(all@[i as int] == v);
                    return v;
                }
                i += 1;
            }
            CAT_V16_LMR_CEILING_DEFAULT
        },
    }
}

/// The fringe of a reference heat, rounded up.
pub open spec fn fringe_of(cat_ref: int, fringe_pct: int) -> int {
    (cat_ref * least(fringe_pct, 100) + 99) / 100
}

/// `r` plies are taken off a child: all but one on the fringe of the hottest move
/// of its kind, capped by the ceiling; otherwise by its share above the fringe.
pub open spec fn cut_by_fringe<H: Fn(i32, u16, u16, u32) -> HeatShare>(
    mv: Move,
    cat_cm: i32,
    refs: CatHeatRefs,
    ceiling: u16,
    fringe_pct: u16,
    child_depth_full: u32,
    heat: H,
    r: int,
) -> bool {
    let cat_ref = least(ref_max(mv, refs) as int, ceiling as int);
    let edge = fringe_of(cat_ref, fringe_pct as int);
    if child_depth_full <= 1 {
        r == 0
    } else if cat_ref == 0 || cat_cm <= edge {
        r == child_depth_full - 1
    } else {
        exists|x: int|
            #![trigger least(x, child_depth_full - 2)]
            keeps_depth(
                heat,
                cat_cm,
                cat_ref as u16,
                edge as u16,
                child_depth_full,
                child_depth_full - x,
            ) && r == least(x, child_depth_full - 2)
    }
}

/// Plies taken off a child by the fringe and its share above it.
pub fn cat_v16_lmr_reduction_plies<H: Fn(i32, u16, u16, u32) -> HeatShare>(
    mv: Move,
    cat_cm: i32,
    refs: CatHeatRefs,
    ceiling: u16,
    fringe_pct: u16,
    child_depth_full: u32,
    heat: &H,
) -> (r: u32)
    requires
        shares(*heat),
    ensures
        cut_by_fringe(
            mv,
            cat_cm,
            refs,
            ceiling,
            fringe_pct,
            child_depth_full,
            *heat,
            r as int,
        ),
{
    if child_depth_full <= 1 {
        return 0;
    }
    let mut cat_ref: u16 = cat_heat_ref_max(mv, refs);
    if cat_ref > ceiling {
        cat_ref = ceiling;
    }
    if cat_ref == 0 {
        return child_depth_full - 1;
    }
    let pct: u16 = if fringe_pct > 100 {
        100
    } else {
        fringe_pct
    };
    assert(0 <= cat_ref * pct <= 65_535 * 100) by (nonlinear_arith)
        requires
            0 <= cat_ref <= 65_535,
            0 <= pct <= 100,
    ;
    assert(cat_ref * pct <= cat_ref * 100) by (nonlinear_arith)
        requires
            0 <= cat_ref,
            0 <= pct <= 100,
    ;
    let edge: u32 = (cat_ref as u32 * pct as u32 + 99) / 100;
    assert(edge <= cat_ref);
    assert(edge == fringe_of(cat_ref as int, fringe_pct as int));
    if cat_cm <= edge as i32 {
        return child_depth_full - 1;
    }
    let x: u32 = cat_heat_depth_reduction(cat_cm, cat_ref, edge as u16, child_depth_full, heat);
    let r: u32 = if x < child_depth_full - 2 {
        x
    } else {
        child_depth_full - 2
    };
    assert(r == least(x as int, child_depth_full - 2));
    r
}

/// Plies taken off a child beyond its base: what `extra` makes of the heat
/// against the hottest move of its kind, capped by the ceiling, but one ply
/// stays.
pub fn cat_v16_lmr_extra_plies<F: Fn(i32, u16, u16) -> u32>(
    mv: Move,
    cat_cm: i32,
    refs: CatHeatRefs,
    ceiling: u16,
    fringe_pct: u16,
    child_depth_full: u32,
    extra: &F,
) -> (r: u32)
    requires
        forall|c: i32, m: u16, p: u16| #[trigger] call_requires(*extra, (c, m, p)),
    ensures
        child_depth_full <= 1 ==> r == 0,
        child_depth_full > 1 ==> exists|x: u32| #[trigger]
            call_ensures(
                *extra,
                (cat_cm, least(ref_max(mv, refs) as int, ceiling as int) as u16, fringe_pct),
                x,
            ) && r == least(x as int, child_depth_full - 1),
{
    if child_depth_full <= 1 {
        return 0;
    }
    let mut cat_ref: u16 = cat_heat_ref_max(mv, refs);
    if cat_ref > ceiling {
        cat_ref = ceiling;
    }
    let x: u32 = extra(cat_cm, cat_ref, fringe_pct);
    if x < child_depth_full - 1 {
        x
    } else {
        child_depth_full - 1
    }
}

} // verus!
