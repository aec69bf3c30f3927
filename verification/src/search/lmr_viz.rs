//! The planned reductions of all root moves.

use vstd::prelude::*;

use crate::ace::order::{ACE_LMR_AFTER_MOVE, ACE_LMR_MIN_DEPTH};
use crate::cat::attention::CorridorAttention;
use crate::cat::constants::{CAT_HOT_CM, DIST_PENALTY};
use crate::cat::depth::is_lmr_heat_hot;
use crate::cat::heat::{build_impact_heatmap, impact_of};
use crate::cat::moves::{impact_heat, move_impact_heat, move_on_board};
use crate::cat::order::{
    boosts, lemma_ranked, lemma_rebalanced, moves_of, order_moves, rank, ranked, rebalanced, scored_by, OrderExtras, OrderScene,
    Scored,
};
use crate::cat::prune::{
    cuts_path, dist_from_square, dist_or_penalty, distance, distance_from, is_tactical_move,
    opp_gain_spec, our_gain_spec, path_distance, wall_intersects_path, walled, with_move_wall,
};
use crate::movegen::laws::lemma_legal_fits;
use crate::movegen::legal::{
    generate_legal_moves_slice, legal_moves, lemma_legal_moves_bounded, PawnGenMode,
    MAX_LEGAL_MOVES,
};
use crate::path::bfs::BfsScratch;
use crate::path::route::{get_shortest_path, is_route};
use crate::position::board::{Board, Move, Player};
use crate::search::cat_index_lmr::{all_but_one, attention_spec, cat_attention, Ratio};
use crate::search::v16_lmr::{
    pawn_plan, plan_v16_pawn_lmr, plan_v16_wall_lmr, wall_plan, V16HardOverride, V16LmrPlan,
};
use crate::util::grid::goal_row;
use crate::util::notation::{format_move, move_chars};

verus! {

/// Below this depth every move counts as tactical.
pub const LMR_MIN_DEPTH: u32 = 2;

/// The planned reduction of a root move.
#[derive(Debug, Clone)]
pub struct RootLmrPlan {
    pub mv: String,
    pub is_pawn: bool,
    pub order: usize,
    pub cat_cm: i32,
    pub tactical: bool,
    pub hot: bool,
    pub cold: bool,
    pub pruned: bool,
    pub baseline_reduction: u32,
    pub baseline_child_depth_full: u32,
    pub baseline_child_depth_used: u32,
    pub reduction: u32,
    pub child_depth_full: u32,
    pub child_depth_used: u32,
    pub reduction_clamped: bool,
    pub in_full_window: bool,
    pub attention_ratio: Ratio,
    pub dead_tail: bool,
    pub ace_base_reduction: u32,
    pub hard_override: &'static str,
    pub final_reduction: u32,
}

/// Which heats count as cold and as hot.
#[derive(Debug, Clone, Copy, PartialEq, Eq, Structural)]
pub struct LmrProfile {
    pub cold_cm: u16,
    pub hot_ratio_pct: u16,
}

/// What a profile rests on.
#[derive(Debug, Clone, Copy)]
pub struct StageInput {
    pub board: Board,
    pub our_dist: u8,
    pub opp_dist: u8,
    pub cat_max: u16,
    pub cat_p75: u16,
    pub endgame_race: bool,
    pub time_ms: u64,
    /// There is no move to plan: the middle stage, whatever the time.
    pub no_moves: bool,
}

/// The outcome of a plan: base, reason, reduction and plies used.
pub open spec fn root_plan(
    move_index: int,
    depth: int,
    full: int,
    attention: Ratio,
    delays: Option<(int, int)>,
    self_gain: Option<int>,
    is_wall: bool,
) -> V16LmrPlan {
    let nothing = V16LmrPlan {
        ace_base_reduction: 0,
        hard_override: V16HardOverride::Unforced,
        final_reduction: 0,
        child_depth_used: full as i32,
    };
    if depth < ACE_LMR_MIN_DEPTH || full <= 1 {
        nothing
    } else if is_wall {
        if move_index >= ACE_LMR_AFTER_MOVE {
            let d = match delays {
                Some(x) => x,
                None => (1, 0),
            };
            wall_plan(move_index, depth, full, attention, d.0, d.1)
        } else {
            nothing
        }
    } else {
        match self_gain {
            Some(g) => match pawn_plan(move_index, depth, full, g) {
                Some(p) => if move_index > 0 {
                    p
                } else {
                    nothing
                },
                None => nothing,
            },
            None => nothing,
        }
    }
}

/// Plans one root move.
pub fn plan_v16_root_move(
    move_index: usize,
    depth: u32,
    child_depth_full: u32,
    attention_ratio: Ratio,
    wall_delays: Option<(i32, i32)>,
    pawn_self_gain: Option<i32>,
    is_wall: bool,
) -> (p: V16LmrPlan)
    requires
        depth <= i32::MAX,
        child_depth_full <= i32::MAX,
    ensures
        p == root_plan(
            move_index as int,
            depth as int,
            child_depth_full as int,
            attention_ratio,
            match wall_delays {
                Some(x) => Some((x.0 as int, x.1 as int)),
                None => None,
            },
            match pawn_self_gain {
                Some(x) => Some(x as int),
                None => None,
            },
            is_wall,
        ),
{
    if depth >= ACE_LMR_MIN_DEPTH as u32 && child_depth_full > 1 {
        if is_wall {
            if move_index >= ACE_LMR_AFTER_MOVE {
                let d: (i32, i32) = match wall_delays {
                    Some(x) => x,
                    None => (1, 0),
                };
                return plan_v16_wall_lmr(
                    move_index,
                    depth as i32,
                    child_depth_full as i32,
                    attention_ratio,
                    d.0,
                    d.1,
                );
            }
        } else if move_index > 0 {
            if let Some(g) = pawn_self_gain {
                if let Some(p) = plan_v16_pawn_lmr(
                    move_index,
                    depth as i32,
                    child_depth_full as i32,
                    g,
                ) {
                    return p;
                }
            }
        }
    }
    V16LmrPlan {
        ace_base_reduction: 0,
        hard_override: V16HardOverride::Unforced,
        final_reduction: 0,
        child_depth_used: child_depth_full as i32,
    }
}

/// The moves with their heats.
pub open spec fn heats_of(moves: Seq<Move>, n: int, cat: CorridorAttention) -> Seq<Scored> {
    Seq::new(n as nat, |i: int| (moves[i], impact_heat(moves[i], cat) as i32))
}

/// The index of the upper quartile from below, in descending order.
pub open spec fn p75_index(n: int) -> int {
    if n * 3 / 4 < n - 1 {
        n * 3 / 4
    } else {
        n - 1
    }
}

/// The highest heat of the first `n` moves, and the one that three quarters are
/// not below; nothing for no moves.
pub fn root_cat_heat_stats(moves: &[Move], n: usize, cat: &CorridorAttention) -> (r: (u16, u16))
    requires
        n <= moves@.len(),
        n <= MAX_LEGAL_MOVES,
        forall|i: int| 0 <= i < n ==> move_on_board(#[trigger] moves@[i]),
    ensures
        n == 0 ==> r == (0u16, 0u16),
        n > 0 ==> r.0 == ranked(heats_of(moves@, n as int, *cat), n as int)[0].1,
        n > 0 ==> r.1 == ranked(heats_of(moves@, n as int, *cat), n as int)[p75_index(
            n as int,
        )].1,
{
    if n == 0 {
        return (0, 0);
    }
    let mut heats: Vec<Scored> = Vec::new();
    let mut i: usize = 0;
    while i < n
        invariant
            i <= n <= moves@.len(),
            forall|j: int| 0 <= j < n ==> move_on_board(#[trigger] moves@[j]),
            heats@.len() == i,
            forall|j: int|
                0 <= j < i ==> #[trigger] heats@[j] == (
                    moves@[j],
                    impact_heat(moves@[j], *cat) as i32,
                ) && 0 <= heats@[j].1 <= 65_535,
        decreases n - i,
    {
        let mv: Move = moves[i];
        assert(move_on_board(moves@[i as int]));
        heats.push((mv, move_impact_heat(mv, cat)));
        i += 1;
    }
    assert(heats@ =~= heats_of(moves@, n as int, *cat));
    let sorted: Vec<Scored> = rank(&heats);
    let mut k: usize = n * 3 / 4;
    if k > n - 1 {
        k = n - 1;
    }
    proof {
        lemma_ranked(heats@, n as int);
        assert(heats@.subrange(0, n as int) =~= heats@);
        lemma_heat_range(sorted@, heats@);
    }
    (sorted[0].1 as u16, sorted[k].1 as u16)
}

/// Lists with the same elements have the same range.
proof fn lemma_heat_range(a: Seq<Scored>, b: Seq<Scored>)
    requires
        a.to_multiset() == b.to_multiset(),
        forall|i: int| 0 <= i < b.len() ==> 0 <= (#[trigger] b[i]).1 <= 65_535,
    ensures
        forall|i: int| 0 <= i < a.len() ==> 0 <= (#[trigger] a[i]).1 <= 65_535,
{
    broadcast use vstd::seq_lib::group_to_multiset_ensures;

    assert forall|i: int| 0 <= i < a.len() implies 0 <= (#[trigger] a[i]).1 <= 65_535 by {
        assert(a.contains(a[i]));
        assert(a.to_multiset().count(a[i]) > 0);
        assert(b.contains(a[i]));
        let j = choose|j: int| 0 <= j < b.len() && b[j] == a[i];
        assert(b[j].1 == a[i].1);
    }
}

/// What the plans of a position rest on.
pub struct PlanScene {
    pub order: OrderScene,
    /// The highest impact of a legal move.
    pub max_impact: int,
    pub depth: int,
    pub profile: LmrProfile,
}

impl PlanScene {
    pub open spec fn full(self) -> int {
        self.depth - 1
    }

    pub open spec fn us(self) -> Player {
        self.order.board.side_to_move
    }

    pub open spec fn attention(self, mv: Move) -> Ratio {
        attention_spec(impact_heat(mv, self.order.cat), self.max_impact)
    }

    /// How a late wall changes both ways.
    pub open spec fn delays(self, i: int, mv: Move) -> Option<(int, int)> {
        if mv is Wall && i >= ACE_LMR_AFTER_MOVE {
            let t = walled(self.order.board, mv);
            Some(
                (
                    dist_or_penalty(t, self.us().opposite_spec()) - self.order.opp_dist,
                    dist_or_penalty(t, self.us()) - self.order.our_dist,
                ),
            )
        } else {
            None
        }
    }

    /// What a pawn move, not the first in order, takes off our way.
    pub open spec fn self_gain(self, i: int, mv: Move) -> Option<int> {
        match mv {
            Move::Pawn { row, col } => if i > 0 {
                Some(
                    self.order.our_dist - dist_from_square(
                        self.order.board,
                        self.us(),
                        row * 9 + col,
                    ),
                )
            } else {
                None
            },
            Move::Wall { .. } => None,
        }
    }

    pub open spec fn plan(self, i: int, mv: Move) -> V16LmrPlan {
        root_plan(
            i,
            self.depth,
            self.full(),
            self.attention(mv),
            self.delays(i, mv),
            self.self_gain(i, mv),
            mv is Wall,
        )
    }

    /// The first move and shallow searches are tactical throughout; otherwise
    /// a wall must cut the path and lengthen it, and a pawn move must gain.
    pub open spec fn tactical(self, i: int, mv: Move) -> bool {
        let o = self.order;
        if i == 0 || self.depth < LMR_MIN_DEPTH {
            true
        } else if mv is Wall {
            cuts_path(mv, o.opp_path, o.opp_path_len) && opp_gain_spec(o.board, mv, o.opp_dist) > 0
        } else {
            our_gain_spec(o.board, mv, o.our_dist) > 0
        }
    }

    /// `h` says whether the heat of the move passes for hot.
    pub open spec fn heat_hot<F: Fn(i32, u16, u16, u16) -> bool>(self, mv: Move, reaches: F, h: bool) -> bool {
        let cm = impact_heat(mv, self.order.cat) as i32;
        if self.max_impact == 0 {
            h == (cm >= CAT_HOT_CM)
        } else {
            call_ensures(
                reaches,
                (cm, self.max_impact as u16, self.profile.cold_cm, self.profile.hot_ratio_pct),
                h,
            )
        }
    }

    /// `p` is the plan of the `i`-th move.
    pub open spec fn is_plan<F: Fn(i32, u16, u16, u16) -> bool>(
        self,
        i: int,
        mv: Move,
        reaches: F,
        p: RootLmrPlan,
    ) -> bool {
        let plan = self.plan(i, mv);
        let full = self.full();
        let cm = impact_heat(mv, self.order.cat);
        &&& p.mv@ == move_chars(mv)
        &&& p.is_pawn == (mv is Pawn)
        &&& p.order == i
        &&& p.cat_cm == cm
        &&& p.tactical == self.tactical(i, mv)
        &&& exists|h: bool| #[trigger]
            self.heat_hot(mv, reaches, h) && p.hot == (h || self.attention(mv).hot())
        &&& p.cold == (cm < self.profile.cold_cm)
        &&& !p.pruned
        &&& p.baseline_reduction == plan.ace_base_reduction
        &&& p.baseline_child_depth_full == full
        &&& p.baseline_child_depth_used == (if full > plan.ace_base_reduction {
            full - plan.ace_base_reduction
        } else {
            0
        })
        &&& p.reduction == plan.final_reduction
        &&& p.child_depth_full == full
        &&& p.child_depth_used == plan.child_depth_used
        &&& p.reduction_clamped == (plan.final_reduction > all_but_one(full))
        &&& p.in_full_window == (plan.child_depth_used >= all_but_one(full))
        &&& p.attention_ratio == self.attention(mv)
        &&& p.dead_tail == (plan.hard_override == V16HardOverride::DeadTail)
        &&& p.ace_base_reduction == plan.ace_base_reduction
        &&& p.hard_override@ == plan.hard_override.name()
        &&& p.final_reduction == plan.final_reduction
    }
}

/// How a wall changes both ways, for a late wall.
fn delays_of(board: &Board, i: usize, mv: Move, our_dist: u8, opp_dist: u8) -> (r: Option<(
    i32,
    i32,
)>)
    requires
        board.wf(),
        move_on_board(mv),
    ensures
        forall|ps: PlanScene|
            #![trigger ps.delays(i as int, mv)]
            ps.order.board == *board && ps.order.our_dist == our_dist && ps.order.opp_dist
                == opp_dist ==> ps.delays(i as int, mv) == (match r {
                Some(x) => Some((x.0 as int, x.1 as int)),
                None => None,
            }),
{
    match mv {
        Move::Wall { .. } => {
            if i >= ACE_LMR_AFTER_MOVE {
                let t: Board = with_move_wall(board, mv);
                let us: Player = board.side();
                let theirs: i32 = distance(&t, us.opposite()) as i32 - opp_dist as i32;
                let ours: i32 = distance(&t, us) as i32 - our_dist as i32;
                Some((theirs, ours))
            } else {
                None
            }
        },
        Move::Pawn { .. } => None,
    }
}

/// What a pawn move, not the first in order, takes off our way.
fn self_gain_of(board: &Board, i: usize, mv: Move, our_dist: u8) -> (r: Option<i32>)
    requires
        board.wf(),
        move_on_board(mv),
    ensures
        forall|ps: PlanScene|
            #![trigger ps.self_gain(i as int, mv)]
            ps.order.board == *board && ps.order.our_dist == our_dist ==> ps.self_gain(
                i as int,
                mv,
            ) == (match r {
                Some(x) => Some(x as int),
                None => None,
            }),
{
    match mv {
        Move::Wall { .. } => None,
        Move::Pawn { row, col } => {
            if i > 0 {
                Some(our_dist as i32 - distance_from(board, row, col) as i32)
            } else {
                None
            }
        },
    }
}

/// Plans the `i`-th move of a position.
fn plan_move<F: Fn(i32, u16, u16, u16) -> bool>(
    board: &Board,
    bfs: &BfsScratch,
    cat: &CorridorAttention,
    mv: Move,
    i: usize,
    our_dist: u8,
    opp_dist: u8,
    opp_path: &[u8; 81],
    opp_path_len: usize,
    max_impact: u32,
    depth: u32,
    profile: LmrProfile,
    reaches: &F,
    Ghost(ps): Ghost<PlanScene>,
) -> (p: RootLmrPlan)
    requires
        board.wf(),
        move_on_board(mv),
        opp_path_len <= 81,
        1 <= depth <= i32::MAX,
        max_impact <= 65_535,
        forall|c: i32, m: u16, z: u16, h: u16| #[trigger] call_requires(*reaches, (c, m, z, h)),
        ps.order.board == *board,
        ps.order.our_dist == our_dist,
        ps.order.opp_dist == opp_dist,
        ps.order.opp_path == opp_path@,
        ps.order.opp_path_len == opp_path_len,
        ps.order.cat == *cat,
        ps.max_impact == max_impact,
        ps.depth == depth,
        ps.profile == profile,
    ensures
        ps.is_plan(i as int, mv, *reaches, p),
{
    let cat_cm: i32 = move_impact_heat(mv, cat);
    let heat_hot: bool = is_lmr_heat_hot(
        cat_cm,
        max_impact as u16,
        profile.cold_cm,
        profile.hot_ratio_pct,
        reaches,
    );
    assert(ps.heat_hot(mv, *reaches, heat_hot));
    let is_wall: bool = match mv {
        Move::Wall { .. } => true,
        Move::Pawn { .. } => false,
    };
    let tactical: bool = if i == 0 || depth < LMR_MIN_DEPTH {
        true
    } else if is_wall && !wall_intersects_path(mv, opp_path, opp_path_len) {
        false
    } else {
        is_tactical_move(board, mv, our_dist, opp_dist, bfs)
    };
    let attention: Ratio = cat_attention(cat_cm, max_impact);
    let full: u32 = depth - 1;
    let delays: Option<(i32, i32)> = delays_of(board, i, mv, our_dist, opp_dist);
    let self_gain: Option<i32> = self_gain_of(board, i, mv, our_dist);
    assert(ps.delays(i as int, mv) == (match delays {
        Some(x) => Some((x.0 as int, x.1 as int)),
        None => None,
    }));
    assert(ps.self_gain(i as int, mv) == (match self_gain {
        Some(x) => Some(x as int),
        None => None,
    }));
    let plan: V16LmrPlan = plan_v16_root_move(
        i,
        depth,
        full,
        attention,
        delays,
        self_gain,
        is_wall,
    );
    assert(plan == ps.plan(i as int, mv));
    let base: u32 = plan.ace_base_reduction as u32;
    let reduction: u32 = plan.final_reduction as u32;
    let used: u32 = plan.child_depth_used as u32;
    let dead_tail: bool = match plan.hard_override {
        V16HardOverride::DeadTail => true,
        _ => false,
    };
    RootLmrPlan {
        mv: format_move(mv),
        is_pawn: !is_wall,
        order: i,
        cat_cm,
        tactical,
        hot: heat_hot || attention.is_hot(),
        cold: cat_cm < profile.cold_cm as i32,
        pruned: false,
        baseline_reduction: base,
        baseline_child_depth_full: full,
        baseline_child_depth_used: full.saturating_sub(base),
        reduction,
        child_depth_full: full,
        child_depth_used: used,
        reduction_clamped: reduction > full.saturating_sub(1),
        in_full_window: used >= full.saturating_sub(1),
        attention_ratio: attention,
        dead_tail,
        ace_base_reduction: base,
        hard_override: plan.hard_override.as_str(),
        final_reduction: reduction,
    }
}

/// `m` is the highest impact of the moves, or nothing.
pub open spec fn is_max_impact(moves: Seq<Move>, cat: CorridorAttention, m: int) -> bool {
    &&& 0 <= m <= 65_535
    &&& forall|i: int| 0 <= i < moves.len() ==> impact_heat(#[trigger] moves[i], cat) <= m
    &&& m > 0 ==> exists|i: int|
        0 <= i < moves.len() && impact_heat(#[trigger] moves[i], cat) == m
}

/// The highest impact of the first `n` moves.
fn max_impact_of(moves: &[Move], n: usize, cat: &CorridorAttention) -> (m: u32)
    requires
        n <= moves@.len(),
        forall|i: int| 0 <= i < n ==> move_on_board(#[trigger] moves@[i]),
    ensures
        is_max_impact(moves@.subrange(0, n as int), *cat, m as int),
{
    let ghost head = moves@.subrange(0, n as int);
    let mut m: u32 = 0;
    let ghost mut at: int = 0;
    let mut i: usize = 0;
    while i < n
        invariant
            i <= n <= moves@.len(),
            head == moves@.subrange(0, n as int),
            forall|j: int| 0 <= j < n ==> move_on_board(#[trigger] moves@[j]),
            m <= 65_535,
            forall|j: int| 0 <= j < i ==> impact_heat(#[trigger] head[j], *cat) <= m,
            m > 0 ==> 0 <= at < i && impact_heat(head[at], *cat) == m,
        decreases n - i,
    {
        assert(move_on_board(moves@[i as int]));
        assert(head[i as int] == moves@[i as int]);
        let h: i32 = move_impact_heat(moves[i], cat);
        if h as u32 > m {
            m = h as u32;
            proof {
                at = i as int;
            }
        }
        i += 1;
    }
    m
}

/// The scene of a position's plans: the distances, a shortest path of the
/// opponent, the heat map, and the profile of the stage.
pub open spec fn scene_of<P: Fn(StageInput) -> LmrProfile>(
    ps: PlanScene,
    b: Board,
    id_depth: int,
    time_ms: u64,
    profile: P,
) -> bool {
    let us = b.side_to_move;
    let them = us.opposite_spec();
    let legal = legal_moves(b, PawnGenMode::O1Lookup);
    let heats = ranked(heats_of(legal, legal.len() as int, ps.order.cat), legal.len() as int);
    let ours = dist_or_penalty(b, us);
    let theirs = dist_or_penalty(b, them);
    &&& ps.order.board == b
    &&& ps.order.tt_best is None
    &&& ps.order.book_hint is None
    &&& ps.order.our_dist == ours
    &&& is_route(b, them, ps.order.opp_path, ps.order.opp_path_len)
    &&& ps.order.opp_dist == (if goal_row(
        them,
        ps.order.opp_path[ps.order.opp_path_len - 1] as int / 9,
    ) {
        ps.order.opp_path_len - 1
    } else {
        DIST_PENALTY as int
    })
    &&& impact_of(b, ps.order.cat)
    &&& is_max_impact(legal, ps.order.cat, ps.max_impact)
    &&& ps.depth == (if id_depth < 1 {
        1
    } else {
        id_depth
    })
    &&& exists|x: StageInput| #[trigger]
        call_ensures(profile, (x,), ps.profile) && x.board == b && x.our_dist == ours && x.opp_dist
            == theirs && x.cat_max == heats[0].1 && x.cat_p75 == heats[p75_index(
            legal.len() as int,
        )].1 && x.endgame_race == (ours <= 4 || theirs <= 4) && x.time_ms == time_ms && !x.no_moves
}

/// No bonus.
pub fn no_bonus(mv: Move) -> (r: i32)
    ensures
        r == 0,
{
    0
}

/// Every legal move is on the board.
proof fn lemma_legal_on_board(b: Board)
    requires
        b.wf(),
    ensures
        forall|i: int|
            0 <= i < legal_moves(b, PawnGenMode::O1Lookup).len() ==> move_on_board(
                #[trigger] legal_moves(b, PawnGenMode::O1Lookup)[i],
            ),
{
    let all = legal_moves(b, PawnGenMode::O1Lookup);
    assert forall|i: int| 0 <= i < all.len() implies move_on_board(#[trigger] all[i]) by {
        assert(all.contains(all[i]));
        lemma_legal_fits(b, PawnGenMode::O1Lookup, all[i]);
    }
}

/// Plans the first `n` moves.
fn plan_list<F: Fn(i32, u16, u16, u16) -> bool>(
    board: &Board,
    bfs: &BfsScratch,
    cat: &CorridorAttention,
    moves: &[Move; 140],
    n: usize,
    our_dist: u8,
    opp_dist: u8,
    opp_path: &[u8; 81],
    opp_path_len: usize,
    max_impact: u32,
    depth: u32,
    profile: LmrProfile,
    reaches: &F,
    Ghost(ps): Ghost<PlanScene>,
) -> (plans: Vec<RootLmrPlan>)
    requires
        board.wf(),
        n <= 140,
        forall|j: int| 0 <= j < n ==> move_on_board(#[trigger] moves@[j]),
        opp_path_len <= 81,
        1 <= depth <= i32::MAX,
        max_impact <= 65_535,
        forall|c: i32, m: u16, z: u16, h: u16| #[trigger] call_requires(*reaches, (c, m, z, h)),
        ps.order.board == *board,
        ps.order.our_dist == our_dist,
        ps.order.opp_dist == opp_dist,
        ps.order.opp_path == opp_path@,
        ps.order.opp_path_len == opp_path_len,
        ps.order.cat == *cat,
        ps.max_impact == max_impact,
        ps.depth == depth,
        ps.profile == profile,
    ensures
        plans@.len() == n,
        forall|j: int|
            0 <= j < n ==> ps.is_plan(j, moves@[j], *reaches, #[trigger] plans@[j]),
{
    let mut plans: Vec<RootLmrPlan> = Vec::new();
    let mut i: usize = 0;
    while i < n
        invariant
            board.wf(),
            i <= n <= 140,
            forall|j: int| 0 <= j < n ==> move_on_board(#[trigger] moves@[j]),
            opp_path_len <= 81,
            1 <= depth <= i32::MAX,
            max_impact <= 65_535,
            forall|c: i32, m: u16, z: u16, h: u16| #[trigger] call_requires(*reaches, (c, m, z, h)),
            ps.order.board == *board,
            ps.order.our_dist == our_dist,
            ps.order.opp_dist == opp_dist,
            ps.order.opp_path == opp_path@,
            ps.order.opp_path_len == opp_path_len,
            ps.order.cat == *cat,
            ps.max_impact == max_impact,
            ps.depth == depth,
            ps.profile == profile,
            plans@.len() == i,
            forall|j: int|
                0 <= j < i ==> ps.is_plan(j, moves@[j], *reaches, #[trigger] plans@[j]),
        decreases n - i,
    {
        let mv: Move = moves[i];
        assert(move_on_board(moves@[i as int]));
        let p: RootLmrPlan = plan_move(
            board,
            bfs,
            cat,
            mv,
            i,
            our_dist,
            opp_dist,
            opp_path,
            opp_path_len,
            max_impact,
            depth,
            profile,
            reaches,
            Ghost(ps),
        );
        plans.push(p);
        i += 1;
    }
    plans
}

/// The plans are those of the position: one per legal move, in the order of the
/// search, and the profile of the stage; where there is no move, that of the
/// middle stage.
pub open spec fn planned<
    P: Fn(StageInput) -> LmrProfile,
    F: Fn(i32, u16, u16, u16) -> bool,
    B: Fn(i32, u16, u16) -> i32,
>(
    b: Board,
    id_depth: int,
    time_ms: u64,
    profile: P,
    reaches: F,
    boost: B,
    chosen: LmrProfile,
    plans: Seq<RootLmrPlan>,
) -> bool {
    let legal = legal_moves(b, PawnGenMode::O1Lookup);
    &&& plans.len() == legal.len()
    &&& if legal.len() == 0 {
        exists|x: StageInput| #[trigger]
            call_ensures(profile, (x,), chosen) && x.no_moves && idle_input(b, time_ms, x)
    } else {
        exists|ps: PlanScene, raw: Seq<Scored>| #[trigger]
            planned_by(b, id_depth, time_ms, profile, reaches, boost, chosen, plans, ps, raw)
    }
}

/// What a profile rests on where there is no move.
pub open spec fn idle_input(b: Board, time_ms: u64, x: StageInput) -> bool {
    let ours = dist_or_penalty(b, b.side_to_move);
    let theirs = dist_or_penalty(b, b.side_to_move.opposite_spec());
    &&& x.board == b
    &&& x.our_dist == ours
    &&& x.opp_dist == theirs
    &&& x.cat_max == 0
    &&& x.cat_p75 == 0
    &&& x.endgame_race == (ours <= 4 || theirs <= 4)
    &&& x.time_ms == time_ms
}

/// The plans follow from a scene and the scores of the legal moves.
pub open spec fn planned_by<
    P: Fn(StageInput) -> LmrProfile,
    F: Fn(i32, u16, u16, u16) -> bool,
    B: Fn(i32, u16, u16) -> i32,
>(
    b: Board,
    id_depth: int,
    time_ms: u64,
    profile: P,
    reaches: F,
    boost: B,
    lmr: LmrProfile,
    plans: Seq<RootLmrPlan>,
    ps: PlanScene,
    raw: Seq<Scored>,
) -> bool {
    &&& scene_of(ps, b, id_depth, time_ms, profile)
    &&& ps.profile == lmr
    &&& scored_by(
        ps.order,
        (OrderExtras { pv_move: None, killers: no_killers() }),
        boost,
        no_bonus,
        legal_moves(b, PawnGenMode::O1Lookup),
        raw,
    )
    &&& forall|i: int|
        0 <= i < plans.len() ==> ps.is_plan(
            i,
            rebalanced(ranked(raw, raw.len() as int), 0)[i].0,
            reaches,
            #[trigger] plans[i],
        )
}

proof fn lemma_planned<
    P: Fn(StageInput) -> LmrProfile,
    F: Fn(i32, u16, u16, u16) -> bool,
    B: Fn(i32, u16, u16) -> i32,
>(
    b: Board,
    id_depth: int,
    time_ms: u64,
    profile: P,
    reaches: F,
    boost: B,
    lmr: LmrProfile,
    plans: Seq<RootLmrPlan>,
    ps: PlanScene,
    raw: Seq<Scored>,
)
    requires
        planned_by(b, id_depth, time_ms, profile, reaches, boost, lmr, plans, ps, raw),
        plans.len() == legal_moves(b, PawnGenMode::O1Lookup).len(),
        plans.len() > 0,
    ensures
        planned(b, id_depth, time_ms, profile, reaches, boost, lmr, plans),
{
    assert(planned_by(b, id_depth, time_ms, profile, reaches, boost, lmr, plans, ps, raw));
}

/// Plans every legal move of a position, in the order of the search: the
/// profile and one plan per move.
pub fn plan_root_lmr<
    P: Fn(StageInput) -> LmrProfile,
    F: Fn(i32, u16, u16, u16) -> bool,
    B: Fn(i32, u16, u16) -> i32,
>(
    board: &Board,
    bfs: &BfsScratch,
    id_depth: u32,
    time_ms: u64,
    profile: &P,
    reaches: &F,
    boost: &B,
) -> (r: (LmrProfile, Vec<RootLmrPlan>))
    requires
        board.wf(),
        bfs.wf(),
        id_depth <= i32::MAX,
        forall|x: StageInput| #[trigger] call_requires(*profile, (x,)),
        forall|c: i32, m: u16, z: u16, h: u16| #[trigger] call_requires(*reaches, (c, m, z, h)),
        boosts(*boost),
    ensures
        planned(*board, id_depth as int, time_ms, *profile, *reaches, *boost, r.0, r.1@),
{
    let us: Player = board.side();
    let them: Player = us.opposite();
    let our_dist: u8 = distance(board, us);
    let their_dist: u8 = distance(board, them);
    let endgame_race: bool = our_dist <= 4 || their_dist <= 4;
    let mut opp_path: [u8; 81] = [0u8; 81];
    let opp_path_len: usize = get_shortest_path(board, them, bfs, &mut opp_path);
    let opp_dist: u8 = path_distance(them, &opp_path, opp_path_len);
    let cat: CorridorAttention = build_impact_heatmap(board);
    let ghost legal = legal_moves(*board, PawnGenMode::O1Lookup);
    proof {
        lemma_legal_moves_bounded(*board, PawnGenMode::O1Lookup);
        lemma_legal_on_board(*board);
    }
    let mut buf: [Move; 140] = [Move::Pawn { row: 1, col: 4 };140];
    let n: usize = generate_legal_moves_slice(board, &mut buf, bfs);
    if n == 0 {
        let input: StageInput = StageInput {
            board: *board,
            our_dist,
            opp_dist: their_dist,
            cat_max: 0,
            cat_p75: 0,
            endgame_race,
            time_ms,
            no_moves: true,
        };
        let idle: LmrProfile = profile(input);
        assert(call_ensures(*profile, (input,), idle) && idle_input(*board, time_ms, input));
        return (idle, Vec::new());
    }
    let ghost listed = buf@;
    assert forall|i: int| 0 <= i < n implies #[trigger] listed[i] == legal[i] && move_on_board(
        listed[i],
    ) by {}
    assert(listed.subrange(0, n as int) =~= legal);
    assert(heats_of(listed, n as int, cat) =~= heats_of(legal, n as int, cat));
    let stats: (u16, u16) = root_cat_heat_stats(&buf, n, &cat);
    let input: StageInput = StageInput {
        board: *board,
        our_dist,
        opp_dist: their_dist,
        cat_max: stats.0,
        cat_p75: stats.1,
        endgame_race,
        time_ms,
        no_moves: false,
    };
    let lmr: LmrProfile = profile(input);
    let max_impact: u32 = max_impact_of(&buf, n, &cat);
    let depth: u32 = if id_depth < 1 {
        1
    } else {
        id_depth
    };
    let ghost ps = PlanScene {
        order: OrderScene {
            board: *board,
            tt_best: None,
            book_hint: None,
            our_dist: our_dist as int,
            opp_dist: opp_dist as int,
            opp_path: opp_path@,
            opp_path_len: opp_path_len as int,
            cat,
        },
        max_impact: max_impact as int,
        depth: depth as int,
        profile: lmr,
    };
    proof {
        assert(call_ensures(*profile, (input,), ps.profile));
        assert(scene_of(ps, *board, id_depth as int, time_ms, *profile));
    }
    let extras: OrderExtras = OrderExtras { pv_move: None, killers: [None, None] };
    assert(extras.killers =~= no_killers());
    let mut scores: [i32; 140] = [0i32; 140];
    order_moves(
        board,
        &mut buf,
        n,
        None,
        None,
        &mut scores,
        our_dist,
        opp_dist,
        &opp_path,
        opp_path_len,
        bfs,
        &cat,
        &extras,
        &no_bonus,
        boost,
    );
    let ghost raw = choose|raw: Seq<Scored>| #[trigger]
        scored_by(ps.order, extras, *boost, no_bonus, legal, raw) && forall|i: int|
            0 <= i < n ==> (#[trigger] buf@[i], scores@[i]) == rebalanced(
                ranked(raw, n as int),
                0,
            )[i];
    proof {
        assert(raw.len() == legal.len()) by {
            assert(moves_of(raw).len() == legal.len());
        }
        lemma_still_on_board(buf@.subrange(0, n as int), legal);
        assert forall|i: int| 0 <= i < n implies move_on_board(#[trigger] buf@[i]) by {
            assert(buf@.subrange(0, n as int)[i] == buf@[i]);
        }
    }
    let plans: Vec<RootLmrPlan> = plan_list(
        board,
        bfs,
        &cat,
        &buf,
        n,
        our_dist,
        opp_dist,
        &opp_path,
        opp_path_len,
        max_impact,
        depth,
        lmr,
        reaches,
        Ghost(ps),
    );
    proof {
        let none = OrderExtras { pv_move: None, killers: no_killers() };
        assert(extras == none);
        assert(scored_by(ps.order, none, *boost, no_bonus, legal, raw));
        assert(ranked(raw, raw.len() as int) == ranked(raw, n as int));
        assert forall|i: int| 0 <= i < plans@.len() implies ps.is_plan(
            i,
            rebalanced(ranked(raw, raw.len() as int), 0)[i].0,
            *reaches,
            #[trigger] plans@[i],
        ) by {
            assert(buf@[i] == rebalanced(ranked(raw, n as int), 0)[i].0);
        }
        lemma_planned(
            *board,
            id_depth as int,
            time_ms,
            *profile,
            *reaches,
            *boost,
            lmr,
            plans@,
            ps,
            raw,
        );
    }
    (lmr, plans)
}

/// No killer moves.
pub open spec fn no_killers() -> [Option<Move>; 2] {
    [None, None]
}

/// A reordered list holds the same moves.
proof fn lemma_still_on_board(a: Seq<Move>, b: Seq<Move>)
    requires
        a.to_multiset() == b.to_multiset(),
        forall|i: int| 0 <= i < b.len() ==> move_on_board(#[trigger] b[i]),
    ensures
        forall|i: int| 0 <= i < a.len() ==> move_on_board(#[trigger] a[i]),
{
    broadcast use vstd::seq_lib::group_to_multiset_ensures;

    assert forall|i: int| 0 <= i < a.len() implies move_on_board(#[trigger] a[i]) by {
        assert(a.contains(a[i]));
        assert(a.to_multiset().count(a[i]) > 0);
        assert(b.contains(a[i]));
        let j = choose|j: int| 0 <= j < b.len() && b[j] == a[i];
        assert(move_on_board(b[j]));
    }
}

/// Totals over plans.
#[derive(Debug, Clone, Copy, PartialEq, Eq, Structural)]
pub struct LmrPlanSummary {
    pub moves_more_reduction: u32,
    /// Sum of the baseline reductions.
    pub baseline_sum: u64,
    /// Sum of the planned reductions.
    pub adjusted_sum: u64,
    pub max_baseline_reduction: u32,
    pub max_adjusted_reduction: u32,
    pub hot_count: u32,
    pub cold_count: u32,
}

/// Totals over the first `n` plans.
pub open spec fn summary_of(plans: Seq<RootLmrPlan>, n: int) -> LmrPlanSummary
    decreases n,
{
    if n <= 0 {
        LmrPlanSummary {
            moves_more_reduction: 0,
            baseline_sum: 0,
            adjusted_sum: 0,
            max_baseline_reduction: 0,
            max_adjusted_reduction: 0,
            hot_count: 0,
            cold_count: 0,
        }
    } else {
        let s = summary_of(plans, n - 1);
        let p = plans[n - 1];
        LmrPlanSummary {
            moves_more_reduction: (s.moves_more_reduction + (if p.reduction > p.baseline_reduction {
                1int
            } else {
                0
            })) as u32,
            baseline_sum: (s.baseline_sum + p.baseline_reduction) as u64,
            adjusted_sum: (s.adjusted_sum + p.reduction) as u64,
            max_baseline_reduction: if p.baseline_reduction > s.max_baseline_reduction {
                p.baseline_reduction
            } else {
                s.max_baseline_reduction
            },
            max_adjusted_reduction: if p.reduction > s.max_adjusted_reduction {
                p.reduction
            } else {
                s.max_adjusted_reduction
            },
            hot_count: (s.hot_count + (if p.hot {
                1int
            } else {
                0
            })) as u32,
            cold_count: (s.cold_count + (if p.cold {
                1int
            } else {
                0
            })) as u32,
        }
    }
}

/// Totals over plans.
pub fn summarize_plans(plans: &Vec<RootLmrPlan>) -> (s: LmrPlanSummary)
    requires
        plans@.len() <= u32::MAX,
    ensures
        s == summary_of(plans@, plans@.len() as int),
{
    let mut s: LmrPlanSummary = LmrPlanSummary {
        moves_more_reduction: 0,
        baseline_sum: 0,
        adjusted_sum: 0,
        max_baseline_reduction: 0,
        max_adjusted_reduction: 0,
        hot_count: 0,
        cold_count: 0,
    };
    let mut i: usize = 0;
    while i < plans.len()
        invariant
            i <= plans@.len() <= u32::MAX,
            s == summary_of(plans@, i as int),
            s.moves_more_reduction <= i,
            s.hot_count <= i,
            s.cold_count <= i,
            s.baseline_sum <= i * 0xFFFF_FFFF,
            s.adjusted_sum <= i * 0xFFFF_FFFF,
        decreases plans@.len() - i,
    {
        let p: &RootLmrPlan = &plans[i];
        if p.hot {
            s.hot_count = s.hot_count + 1;
        }
        if p.cold {
            s.cold_count = s.cold_count + 1;
        }
        s.baseline_sum = s.baseline_sum + p.baseline_reduction as u64;
        s.adjusted_sum = s.adjusted_sum + p.reduction as u64;
        if p.baseline_reduction > s.max_baseline_reduction {
            s.max_baseline_reduction = p.baseline_reduction;
        }
        if p.reduction > s.max_adjusted_reduction {
            s.max_adjusted_reduction = p.reduction;
        }
        if p.reduction > p.baseline_reduction {
            s.moves_more_reduction = s.moves_more_reduction + 1;
        }
        i += 1;
    }
    s
}

/// The last of the first `n` plans for the move of that name.
pub open spec fn named(plans: Seq<RootLmrPlan>, n: int, name: Seq<char>) -> Option<int>
    decreases n,
{
    if n <= 0 {
        None
    } else if plans[n - 1].mv@ == name {
        Some(n - 1)
    } else {
        named(plans, n - 1, name)
    }
}

/// Two plans of one move: the deeper one, in the place of the first; where that
/// is the first, with the higher heat.
pub open spec fn deeper(p: RootLmrPlan, q: RootLmrPlan) -> RootLmrPlan {
    if q.child_depth_used > p.child_depth_used {
        RootLmrPlan { order: p.order, ..q }
    } else {
        RootLmrPlan {
            cat_cm: if q.cat_cm > p.cat_cm {
                q.cat_cm
            } else {
                p.cat_cm
            },
            hot: p.hot || q.hot,
            ..p
        }
    }
}

/// The plans with the first `k` of the others merged in; what only the others
/// have goes to the end.
pub open spec fn merged(plans: Seq<RootLmrPlan>, others: Seq<RootLmrPlan>, k: int) -> Seq<
    RootLmrPlan,
>
    decreases k,
{
    if k <= 0 {
        plans
    } else {
        let m = merged(plans, others, k - 1);
        let q = others[k - 1];
        match named(plans, plans.len() as int, q.mv@) {
            Some(i) => m.update(i, deeper(m[i], q)),
            None => m.push(RootLmrPlan { order: m.len() as usize, ..q }),
        }
    }
}

proof fn lemma_named(plans: Seq<RootLmrPlan>, n: int, name: Seq<char>)
    requires
        0 <= n,
    ensures
        named(plans, n, name) matches Some(i) ==> 0 <= i < n && plans[i].mv@ == name,
    decreases n,
{
    if n > 0 {
        lemma_named(plans, n - 1, name);
    }
}

proof fn lemma_named_same(a: Seq<RootLmrPlan>, b: Seq<RootLmrPlan>, n: int, name: Seq<char>)
    requires
        forall|i: int| 0 <= i < n ==> (#[trigger] a[i]).mv@ == b[i].mv@,
    ensures
        named(a, n, name) == named(b, n, name),
    decreases n,
{
    if n > 0 {
        lemma_named_same(a, b, n - 1, name);
        assert(a[n - 1].mv@ == b[n - 1].mv@);
    }
}

fn find_named(plans: &Vec<RootLmrPlan>, n: usize, name: &String) -> (r: Option<usize>)
    requires
        n <= plans@.len(),
    ensures
        (match r {
            Some(i) => Some(i as int),
            None => None,
        }) == named(plans@, n as int, name@),
        r matches Some(i) ==> i < n,
{
    let mut i: usize = n;
    while i > 0
        invariant
            i <= n <= plans@.len(),
            named(plans@, n as int, name@) == named(plans@, i as int, name@),
        decreases i,
    {
        if plans[i - 1].mv == *name {
            return Some(i - 1);
        }
        i -= 1;
    }
    None
}

/// A copy of the plan at another place.
fn with_order(q: &RootLmrPlan, order: usize) -> (r: RootLmrPlan)
    ensures
        r == (RootLmrPlan { order, ..*q }),
{
    RootLmrPlan { mv: q.mv.clone(), order, ..*q }
}

/// The deeper of two plans of one move.
fn deepen_plan(p: &RootLmrPlan, q: &RootLmrPlan) -> (r: RootLmrPlan)
    ensures
        r == deeper(*p, *q),
{
    if q.child_depth_used > p.child_depth_used {
        with_order(q, p.order)
    } else {
        let cat_cm: i32 = if q.cat_cm > p.cat_cm {
            q.cat_cm
        } else {
            p.cat_cm
        };
        RootLmrPlan { mv: p.mv.clone(), cat_cm, hot: p.hot || q.hot, ..*p }
    }
}

/// Merges the other player's plans in: a move keeps the deeper of its plans.
pub fn merge_combined_plans(plans: &mut Vec<RootLmrPlan>, opp_plans: Vec<RootLmrPlan>)
    requires
        old(plans)@.len() + opp_plans@.len() <= usize::MAX,
    ensures
        final(plans)@ == merged(old(plans)@, opp_plans@, opp_plans@.len() as int),
{
    let n: usize = plans.len();
    let ghost p0 = plans@;
    let mut k: usize = 0;
    while k < opp_plans.len()
        invariant
            k <= opp_plans@.len(),
            n == p0.len(),
            n + opp_plans@.len() <= usize::MAX,
            n <= plans@.len() <= n + k,
            plans@ == merged(p0, opp_plans@, k as int),
            forall|i: int| 0 <= i < n ==> (#[trigger] plans@[i]).mv@ == p0[i].mv@,
        decreases opp_plans@.len() - k,
    {
        let q: &RootLmrPlan = &opp_plans[k];
        let ghost m = plans@;
        proof {
            lemma_named_same(m, p0, n as int, q.mv@);
            lemma_named(p0, n as int, q.mv@);
        }
        match find_named(plans, n, &q.mv) {
            Some(i) => {
                let p: RootLmrPlan = deepen_plan(&plans[i], q);
                plans.set(i, p);
            },
            None => {
                let p: RootLmrPlan = with_order(q, plans.len());
                plans.push(p);
            },
        }
        k += 1;
    }
}

/// The depth of a snapshot.
pub open spec fn snapshot_depth(id_depth: int) -> int {
    if id_depth < 4 {
        4
    } else if id_depth > 32 {
        32
    } else {
        id_depth
    }
}

/// The board with the other player to move.
pub open spec fn other_side(b: Board) -> Board {
    Board { side_to_move: b.side_to_move.opposite_spec(), ..b }
}

/// The plans of both players, merged: the depth, the mover's profile and the
/// plans.
pub fn lmr_snapshot<
    P: Fn(StageInput) -> LmrProfile,
    F: Fn(i32, u16, u16, u16) -> bool,
    B: Fn(i32, u16, u16) -> i32,
>(board: &Board, time_ms: u64, id_depth: u32, profile: &P, reaches: &F, boost: &B) -> (r: (
    u32,
    LmrProfile,
    Vec<RootLmrPlan>,
))
    requires
        board.wf(),
        forall|x: StageInput| #[trigger] call_requires(*profile, (x,)),
        forall|c: i32, m: u16, z: u16, h: u16| #[trigger] call_requires(*reaches, (c, m, z, h)),
        boosts(*boost),
    ensures
        r.0 == snapshot_depth(id_depth as int),
        exists|a: Seq<RootLmrPlan>, b: Seq<RootLmrPlan>, other: LmrProfile|
            #![trigger planned(*board, r.0 as int, time_ms, *profile, *reaches, *boost, r.1, a), planned(other_side(*board), r.0 as int, time_ms, *profile, *reaches, *boost, other, b)]
            planned(*board, r.0 as int, time_ms, *profile, *reaches, *boost, r.1, a) && planned(
                other_side(*board),
                r.0 as int,
                time_ms,
                *profile,
                *reaches,
                *boost,
                other,
                b,
            ) && r.2@ == merged(a, b, b.len() as int),
{
    let bfs: BfsScratch = BfsScratch::new();
    let depth: u32 = if id_depth < 4 {
        4
    } else if id_depth > 32 {
        32
    } else {
        id_depth
    };
    let mine: (LmrProfile, Vec<RootLmrPlan>) = plan_root_lmr(
        board,
        &bfs,
        depth,
        time_ms,
        profile,
        reaches,
        boost,
    );
    let mut other: Board = *board;
    other.side_to_move = board.side_to_move.opposite();
    let theirs: (LmrProfile, Vec<RootLmrPlan>) = plan_root_lmr(
        &other,
        &bfs,
        depth,
        time_ms,
        profile,
        reaches,
        boost,
    );
    let mut plans: Vec<RootLmrPlan> = mine.1;
    let ghost a = plans@;
    let ghost b = theirs.1@;
    proof {
        lemma_legal_moves_bounded(*board, PawnGenMode::O1Lookup);
        lemma_legal_moves_bounded(other, PawnGenMode::O1Lookup);
        assert(other == other_side(*board));
        assert(planned(*board, depth as int, time_ms, *profile, *reaches, *boost, mine.0, a));
        assert(planned(other, depth as int, time_ms, *profile, *reaches, *boost, theirs.0, b));
    }
    merge_combined_plans(&mut plans, theirs.1);
    let r: (u32, LmrProfile, Vec<RootLmrPlan>) = (depth, mine.0, plans);
    proof {
        assert(planned(*board, r.0 as int, time_ms, *profile, *reaches, *boost, r.1, a));
        assert(planned(
            other_side(*board),
            r.0 as int,
            time_ms,
            *profile,
            *reaches,
            *boost,
            theirs.0,
            b,
        ));
        assert(r.2@ == merged(a, b, b.len() as int));
    }
    r
}

/// Every legal move has a plan, which tells its heat.
pub proof fn lemma_every_move_planned<
    P: Fn(StageInput) -> LmrProfile,
    F: Fn(i32, u16, u16, u16) -> bool,
    B: Fn(i32, u16, u16) -> i32,
>(
    b: Board,
    id_depth: int,
    time_ms: u64,
    profile: P,
    reaches: F,
    boost: B,
    chosen: LmrProfile,
    plans: Seq<RootLmrPlan>,
    j: int,
)
    requires
        planned(b, id_depth, time_ms, profile, reaches, boost, chosen, plans),
        0 <= j < legal_moves(b, PawnGenMode::O1Lookup).len(),
    ensures
        exists|i: int, cat: CorridorAttention|
            #![trigger plans[i], impact_of(b, cat)]
            0 <= i < plans.len() && impact_of(b, cat) && plans[i].mv@ == move_chars(
                legal_moves(b, PawnGenMode::O1Lookup)[j],
            ) && plans[i].cat_cm == impact_heat(legal_moves(b, PawnGenMode::O1Lookup)[j], cat),
{
    broadcast use vstd::seq_lib::group_to_multiset_ensures;

    let legal = legal_moves(b, PawnGenMode::O1Lookup);
    assert(plans.len() > 0);
    let lmr = chosen;
    let (ps, raw) = choose|ps: PlanScene, raw: Seq<Scored>| #[trigger]
        planned_by(b, id_depth, time_ms, profile, reaches, boost, lmr, plans, ps, raw);
    let sorted = ranked(raw, raw.len() as int);
    let out = rebalanced(sorted, 0);
    lemma_ranked(raw, raw.len() as int);
    lemma_rebalanced(sorted, 0);
    assert(raw.subrange(0, raw.len() as int) =~= raw);
    assert(sorted.subrange(0, sorted.len() as int) =~= sorted);
    assert(moves_of(raw)[j] == legal[j]);
    assert(raw.contains(raw[j]));
    assert(raw.to_multiset().count(raw[j]) > 0);
    assert(out.contains(raw[j]));
    let i = choose|i: int| 0 <= i < out.len() && out[i] == raw[j];
    assert(moves_of(raw).len() == legal.len());
    assert(ps.is_plan(i, out[i].0, reaches, plans[i]));
    assert(impact_of(b, ps.order.cat));
}

} // verus!
