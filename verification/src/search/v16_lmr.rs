//! Late-move reductions: the graduated schedule with two hard overrides.

use vstd::prelude::*;

use crate::ace::order::{ace_graduated_lmr_reduction, graduated};
use crate::search::cat_index_lmr::Ratio;

verus! {

/// Why a move is cut to one ply.
#[derive(Debug, Clone, Copy, PartialEq, Eq, Structural)]
pub enum V16HardOverride {
    Unforced,
    DeadTail,
    BackwardMove,
}

impl V16HardOverride {
    /// The name of the reason.
    pub open spec fn name(self) -> Seq<char> {
        match self {
            V16HardOverride::Unforced => "none"@,
            V16HardOverride::DeadTail => "deadTail"@,
            V16HardOverride::BackwardMove => "backwardMove"@,
        }
    }

    /// The name of the reason.
    pub fn as_str(self) -> (r: &'static str)
        ensures
            r@ == self.name(),
    {
        match self {
            V16HardOverride::Unforced => "none",
            V16HardOverride::DeadTail => "deadTail",
            V16HardOverride::BackwardMove => "backwardMove",
        }
    }
}

/// How deep a late move is searched.
#[derive(Debug, Clone, Copy, PartialEq, Eq, Structural)]
pub struct V16LmrPlan {
    pub ace_base_reduction: i32,
    pub hard_override: V16HardOverride,
    pub final_reduction: i32,
    pub child_depth_used: i32,
}

/// The most that can be taken off a child: all but one ply.
pub open spec fn most_safe(child_depth_full: int) -> int {
    if child_depth_full > 1 {
        child_depth_full - 1
    } else {
        0
    }
}

fn max_safe_reduction(child_depth_full: i32) -> (r: i32)
    ensures
        r == most_safe(child_depth_full as int),
{
    if child_depth_full > 1 {
        child_depth_full - 1
    } else {
        0
    }
}

/// The plan of a wall: in the tail of the attention one ply, named backward
/// where it delays nobody; otherwise the graduated schedule as far as it is
/// safe.
pub open spec fn wall_plan(
    move_index: int,
    depth: int,
    child_depth_full: int,
    attention: Ratio,
    opponent_delay: int,
    self_delay: int,
) -> V16LmrPlan {
    let base = graduated(move_index, depth);
    let safe = most_safe(child_depth_full);
    if attention.in_tail() {
        V16LmrPlan {
            ace_base_reduction: base as i32,
            hard_override: if opponent_delay <= 0 && self_delay <= 0 {
                V16HardOverride::BackwardMove
            } else {
                V16HardOverride::DeadTail
            },
            final_reduction: safe as i32,
            child_depth_used: 1,
        }
    } else {
        let r = if base < safe {
            base
        } else {
            safe
        };
        V16LmrPlan {
            ace_base_reduction: base as i32,
            hard_override: V16HardOverride::Unforced,
            final_reduction: r as i32,
            child_depth_used: (if child_depth_full > r {
                child_depth_full - r
            } else {
                0
            }) as i32,
        }
    }
}

/// Plans a wall.
pub fn plan_v16_wall_lmr(
    move_index: usize,
    depth: i32,
    child_depth_full: i32,
    attention_ratio: Ratio,
    opponent_delay: i32,
    self_delay: i32,
) -> (p: V16LmrPlan)
    ensures
        p == wall_plan(
            move_index as int,
            depth as int,
            child_depth_full as int,
            attention_ratio,
            opponent_delay as int,
            self_delay as int,
        ),
{
    let base: i32 = ace_graduated_lmr_reduction(move_index, depth);
    let safe: i32 = max_safe_reduction(child_depth_full);
    if attention_ratio.is_tail() {
        let label: V16HardOverride = if opponent_delay <= 0 && self_delay <= 0 {
            V16HardOverride::BackwardMove
        } else {
            V16HardOverride::DeadTail
        };
        return V16LmrPlan {
            ace_base_reduction: base,
            hard_override: label,
            final_reduction: safe,
            child_depth_used: 1,
        };
    }
    let r: i32 = if base < safe {
        base
    } else {
        safe
    };
    V16LmrPlan {
        ace_base_reduction: base,
        hard_override: V16HardOverride::Unforced,
        final_reduction: r,
        child_depth_used: if child_depth_full > r {
            child_depth_full - r
        } else {
            0
        },
    }
}

/// Plans a pawn move: one ply where it leads away from the goal, otherwise
/// nothing is planned.
pub fn plan_v16_pawn_lmr(move_index: usize, depth: i32, child_depth_full: i32, self_gain: i32) -> (p:
    Option<V16LmrPlan>)
    ensures
        p == pawn_plan(move_index as int, depth as int, child_depth_full as int, self_gain as int),
{
    if self_gain >= 0 {
        return None;
    }
    Some(
        V16LmrPlan {
            ace_base_reduction: ace_graduated_lmr_reduction(move_index, depth),
            hard_override: V16HardOverride::BackwardMove,
            final_reduction: max_safe_reduction(child_depth_full),
            child_depth_used: 1,
        },
    )
}

/// The plan of a pawn move.
pub open spec fn pawn_plan(move_index: int, depth: int, child_depth_full: int, self_gain: int) -> Option<
    V16LmrPlan,
> {
    if self_gain >= 0 {
        None
    } else {
        Some(
            V16LmrPlan {
                ace_base_reduction: graduated(move_index, depth) as i32,
                hard_override: V16HardOverride::BackwardMove,
                final_reduction: most_safe(child_depth_full) as i32,
                child_depth_used: 1,
            },
        )
    }
}

/// A plan leaves at least one ply of a child that has more than one, and
/// reduction and rest make up the child's depth.
pub proof fn lemma_wall_plan_bounds(
    move_index: int,
    depth: int,
    child_depth_full: i32,
    attention: Ratio,
    opponent_delay: int,
    self_delay: int,
)
    requires
        child_depth_full > 1,
    ensures
        ({
            let p = wall_plan(
                move_index,
                depth,
                child_depth_full as int,
                attention,
                opponent_delay,
                self_delay,
            );
            &&& p.child_depth_used >= 1
            &&& p.final_reduction + p.child_depth_used == child_depth_full
            &&& 0 <= p.final_reduction <= child_depth_full - 1
        }),
{
}

/// Outside the tail the attention changes nothing.
pub proof fn lemma_attention_only_in_tail(
    move_index: int,
    depth: int,
    child_depth_full: i32,
    a: Ratio,
    b: Ratio,
    opponent_delay: int,
    self_delay: int,
)
    requires
        !a.in_tail(),
        !b.in_tail(),
    ensures
        wall_plan(move_index, depth, child_depth_full as int, a, opponent_delay, self_delay)
            == wall_plan(
            move_index,
            depth,
            child_depth_full as int,
            b,
            opponent_delay,
            self_delay,
        ),
{
}

} // verus!
