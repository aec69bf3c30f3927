//! What planned reductions and rankings promise.

use vstd::prelude::*;

use crate::cat::depth::{
    cut_by_fringe, fringe_of, keeps_depth, least, shares, worker_fringe, HeatShare,
};
use crate::cat::moves::{ref_max, CatHeatRefs};
use crate::cat::order::Scored;
use crate::cat::prune::{dist_or_penalty, opp_gain_spec, our_gain_spec, wall_on_grid, walled};
use crate::path::graph::{
    board_steps, dist, goal_dist, goal_squares, has_path, lemma_dist_bound, pawn_sq, reach,
};
use crate::position::board::{Board, Move, Player};
use crate::search::agreement::{common_places, place_in, places_before, rank_distance};
use crate::search::cat_index_lmr::{
    aggression, attention_spec, corrected, correction, race_gain, reduction_is, CurvePoint, Ratio,
};
use crate::search::lmr_viz::{
    deeper, merged, named, p75_index, root_plan, snapshot_depth, summary_of, PlanScene,
    RootLmrPlan,
};
use crate::search::v16_lmr::{pawn_plan, wall_plan, V16HardOverride};
use crate::util::notation::move_chars;

verus! {

/// Of two walls outside the tail the later one is cut no less, and none more than
/// the schedule says or than leaves a ply; in the tail exactly one ply is left,
/// and the reason tells whether the wall delays anybody.
pub proof fn lemma_wall_plans_in_order(
    i: int,
    j: int,
    depth: int,
    full: i32,
    a: Ratio,
    opp: int,
    own: int,
)
    requires
        0 <= i <= j,
        full > 1,
    ensures
        ({
            let p = wall_plan(i, depth, full as int, a, opp, own);
            let q = wall_plan(j, depth, full as int, a, opp, own);
            &&& q.child_depth_used <= p.child_depth_used
            &&& 1 <= p.child_depth_used <= full
            &&& a.in_tail() ==> p.child_depth_used == 1
            &&& !a.in_tail() ==> p.hard_override == V16HardOverride::Unforced
                && p.child_depth_used >= full - 3 && p.child_depth_used < full
            &&& p.hard_override == V16HardOverride::BackwardMove <==> a.in_tail() && opp <= 0 && own
                <= 0
            &&& p.hard_override == V16HardOverride::DeadTail <==> a.in_tail() && (opp > 0 || own > 0)
        }),
{
}

/// Who is never cut: the first move, the first four walls, pawn moves that do not
/// lead away from the goal, and anything in a search of less than three plies;
/// whoever is cut keeps at least a ply, and what is cut and kept makes up the
/// whole.
pub proof fn lemma_who_is_never_cut(
    i: int,
    depth: int,
    full: i32,
    a: Ratio,
    delays: Option<(int, int)>,
    gain: Option<int>,
    is_wall: bool,
)
    requires
        i >= 0,
        full >= 1,
    ensures
        ({
            let p = root_plan(i, depth, full as int, a, delays, gain, is_wall);
            &&& i == 0 || depth < 3 || (is_wall && i < 4) || (!is_wall && (gain is None || gain->0
                >= 0)) ==> p.final_reduction == 0 && p.child_depth_used == full
            &&& p.child_depth_used >= 1
            &&& p.child_depth_used + p.final_reduction == full
            &&& p.final_reduction >= 0
        }),
{
}

/// A pawn move is planned exactly if it leads away from the goal, and then one ply
/// is left to it.
pub proof fn lemma_only_backward_pawns_are_planned(i: int, depth: int, full: int, gain: int)
    ensures
        pawn_plan(i, depth, full, gain) is Some <==> gain < 0,
        pawn_plan(i, depth, full, gain) matches Some(p) ==> p.child_depth_used == 1
            && p.hard_override == V16HardOverride::BackwardMove,
{
}

/// The attention of a move is its share in the highest impact: more impact is no
/// less attention, the highest is hot and never in the tail, none is in it.
pub proof fn lemma_attention_follows_impact(x: int, y: int, max: int)
    requires
        x <= y,
        1 <= max <= u32::MAX,
    ensures
        attention_spec(x, max).part <= attention_spec(y, max).part <= attention_spec(
            y,
            max,
        ).whole,
        attention_spec(y, max).in_tail() ==> attention_spec(x, max).in_tail(),
        attention_spec(x, max).hot() ==> attention_spec(y, max).hot(),
        attention_spec(max, max).hot() && !attention_spec(max, max).in_tail(),
        x <= 0 ==> attention_spec(x, max).in_tail() && !attention_spec(x, max).hot(),
        0 <= x <= max ==> (attention_spec(x, max).in_tail() <==> 10 * x <= max),
        0 <= x <= max ==> (attention_spec(x, max).hot() <==> 100 * x >= 72 * max),
{
}

/// A correction gives a ply back for a gain in the race, takes all but one where a
/// wall in the tail gains nothing, and leaves everything else as it is; a ply
/// always stays, and the change is what is told.
pub proof fn lemma_corrections(base: int, full: int, gain: int, tail: bool, skip: bool)
    requires
        0 <= base,
        full > 1,
    ensures
        ({
            let r = corrected(base, full, gain, tail, skip);
            &&& 0 <= r <= full - 1
            &&& gain > 0 && !skip ==> r <= base && (base > 0 ==> r < base)
            &&& gain == 0 && tail && !skip ==> r == full - 1
            &&& skip || gain < 0 || (gain == 0 && !tail) ==> r == if base < full - 1 {
                base
            } else {
                full - 1
            }
            &&& base + correction(base, full, gain, tail, skip) <= full - 1 ==> r == base
                + correction(base, full, gain, tail, skip)
        }),
{
}

/// Nothing is taken off the first moves, off a lone move, off a child of one ply,
/// or where the tuning forbids it; all of the tail is cut whole, and nobody else is.
pub proof fn lemma_index_reductions<C: Fn(CurvePoint) -> u32>(
    full: u32,
    rank: usize,
    count: usize,
    impact: i32,
    max_impact: u32,
    tuning: i32,
    skip: bool,
    first: usize,
    curve: C,
    r: int,
)
    requires
        reduction_is(full, rank, count, impact, max_impact, tuning, skip, first, curve, r),
    ensures
        skip || rank < first || count <= 1 || full <= 1 || tuning >= 150 ==> r == 0,
        0 <= r <= full,
        r == full && full > 0 ==> max_impact > 0 && 10 * impact <= max_impact,
        max_impact > 0 && 10 * impact <= max_impact && !(skip || rank < first || count <= 1 || full
            <= 1 || tuning >= 150) ==> r == full,
{
}

/// Later workers are no less bold.
pub proof fn lemma_boldness_grows(a: int, b: int)
    requires
        0 <= a <= b,
    ensures
        aggression(a) <= aggression(b),
        a < b <= 3 ==> aggression(a) < aggression(b),
{
}

/// Two plans of one move merge into the deeper, hot where the kept one is; the
/// place stays.
pub proof fn lemma_merged_plan_is_deeper(p: RootLmrPlan, q: RootLmrPlan)
    ensures
        deeper(p, q).child_depth_used >= p.child_depth_used,
        deeper(p, q).child_depth_used >= q.child_depth_used,
        deeper(p, q).child_depth_used == p.child_depth_used || deeper(p, q).child_depth_used
            == q.child_depth_used,
        deeper(p, q).order == p.order,
        deeper(p, q).cat_cm >= q.cat_cm || deeper(p, q).child_depth_used > q.child_depth_used,
        p.hot && q.hot ==> deeper(p, q).hot,
        deeper(p, q).hot ==> p.hot || q.hot,
{
}

/// Merging loses no move of either list: those of the first keep their place.
pub proof fn lemma_merging_keeps_places(
    plans: Seq<RootLmrPlan>,
    others: Seq<RootLmrPlan>,
    k: int,
    i: int,
)
    requires
        0 <= k <= others.len(),
        0 <= i < plans.len(),
    ensures
        plans.len() <= merged(plans, others, k).len() <= plans.len() + k,
        merged(plans, others, k)[i].child_depth_used >= plans[i].child_depth_used,
        merged(plans, others, k)[i].mv@ == plans[i].mv@,
        merged(plans, others, k)[i].order == plans[i].order,
    decreases k,
{
    if k > 0 {
        lemma_merging_keeps_places(plans, others, k - 1, i);
        let q = others[k - 1];
        lemma_named_is(plans, plans.len() as int, q.mv@);
        if let Some(j) = named(plans, plans.len() as int, q.mv@) {
            lemma_merging_keeps_places(plans, others, k - 1, j);
            lemma_merged_plan_is_deeper(merged(plans, others, k - 1)[j], q);
        }
    }
}

proof fn lemma_named_is(plans: Seq<RootLmrPlan>, n: int, name: Seq<char>)
    requires
        0 <= n <= plans.len(),
    ensures
        named(plans, n, name) matches Some(i) ==> 0 <= i < n && plans[i].mv@ == name,
    decreases n,
{
    if n > 0 {
        lemma_named_is(plans, n - 1, name);
    }
}

/// A snapshot is taken at four plies at least and 32 at most, at the depth asked
/// for between.
pub proof fn lemma_snapshot_depths(d: int)
    ensures
        4 <= snapshot_depth(d) <= 32,
        4 <= d <= 32 ==> snapshot_depth(d) == d,
        d < 4 ==> snapshot_depth(d) == 4,
        d > 32 ==> snapshot_depth(d) == 32,
{
}

// --- rankings ---

/// The distance of rankings is a sum of squares: nothing exactly where every move
/// has the same rank in both.
pub proof fn lemma_rank_distance_is_zero_for_equal_ranks(p: Seq<int>, k: int)
    requires
        0 <= k <= p.len(),
    ensures
        rank_distance(p, k) >= 0,
        rank_distance(p, k) == 0 <==> forall|i: int|
            0 <= i < k ==> #[trigger] places_before(p, i, p.len() as int) == i,
    decreases k,
{
    if k > 0 {
        lemma_rank_distance_is_zero_for_equal_ranks(p, k - 1);
        let d = (k - 1) - places_before(p, k - 1, p.len() as int);
        assert(d * d >= 0) by (nonlinear_arith);
        assert(d * d == 0 ==> d == 0) by (nonlinear_arith);
        if d == 0 {
            assert(d * d == 0) by (nonlinear_arith)
                requires
                    d == 0,
            ;
        }
        if rank_distance(p, k) == 0 {
            assert forall|i: int| 0 <= i < k implies #[trigger] places_before(
                p,
                i,
                p.len() as int,
            ) == i by {}
        }
    }
}

/// A rank is a number of places: between none and all, and of two moves the one
/// with the smaller place has the smaller rank.
pub proof fn lemma_ranks_follow_places(p: Seq<int>, i: int, j: int, n: int)
    requires
        0 <= i < p.len(),
        0 <= j < p.len(),
        0 <= n <= p.len(),
    ensures
        0 <= places_before(p, i, n) <= n,
        p[i] < p[j] ==> places_before(p, i, n) <= places_before(p, j, n),
        p[i] < p[j] && n > i ==> places_before(p, i, n) < places_before(p, j, n),
    decreases n,
{
    if n > 0 {
        lemma_ranks_follow_places(p, i, j, n - 1);
    }
}

/// The places that are compared are those of common moves: as many as the first
/// ranking's moves that the second has, each where the second has it.
pub proof fn lemma_common_places(first: Seq<Move>, list: Seq<Scored>, n: int)
    requires
        0 <= n <= first.len(),
    ensures
        common_places(first, list, n).len() <= n,
        forall|i: int|
            0 <= i < common_places(first, list, n).len() ==> 0 <= #[trigger] common_places(
                first,
                list,
                n,
            )[i] < list.len(),
        (forall|i: int|
            0 <= i < n ==> exists|j: int| 0 <= j < list.len() && list[j].0 == #[trigger] first[i])
            ==> common_places(first, list, n).len() == n,
    decreases n,
{
    if n > 0 {
        lemma_common_places(first, list, n - 1);
        lemma_place_in(list, list.len() as int, first[n - 1]);
    }
}

proof fn lemma_place_in(list: Seq<Scored>, n: int, mv: Move)
    requires
        0 <= n <= list.len(),
    ensures
        place_in(list, n, mv) matches Some(i) ==> 0 <= i < n && list[i].0 == mv,
        place_in(list, n, mv) is None ==> forall|i: int| 0 <= i < n ==> (#[trigger] list[i]).0 != mv,
    decreases n,
{
    if n > 0 {
        lemma_place_in(list, n - 1, mv);
    }
}

proof fn lemma_sums_fit(plans: Seq<RootLmrPlan>, n: int)
    requires
        0 <= n <= plans.len(),
        plans.len() <= u32::MAX,
    ensures
        ({
            let s = summary_of(plans, n);
            &&& s.baseline_sum <= n * 0xFFFF_FFFF
            &&& s.adjusted_sum <= n * 0xFFFF_FFFF
            &&& s.hot_count <= n
            &&& s.cold_count <= n
            &&& s.moves_more_reduction <= n
        }),
    decreases n,
{
    if n > 0 {
        lemma_sums_fit(plans, n - 1);
    }
}

/// Totals add up: one more plan adds its own reductions, counts once if it is hot,
/// cold or cut more than its baseline, and raises a maximum to its own reduction
/// where that is higher. No plans come to nothing.
pub proof fn lemma_totals_add_up(plans: Seq<RootLmrPlan>, p: RootLmrPlan)
    requires
        plans.len() < u32::MAX,
    ensures
        ({
            let n = plans.len() as int;
            let s = summary_of(plans, n);
            let t = summary_of(plans.push(p), n + 1);
            &&& t.baseline_sum - s.baseline_sum == p.baseline_reduction
            &&& t.adjusted_sum - s.adjusted_sum == p.reduction
            &&& t.hot_count - s.hot_count == if p.hot {
                1int
            } else {
                0
            }
            &&& t.cold_count - s.cold_count == if p.cold {
                1int
            } else {
                0
            }
            &&& t.moves_more_reduction > s.moves_more_reduction <==> p.reduction
                > p.baseline_reduction
            &&& t.moves_more_reduction <= s.moves_more_reduction + 1
            &&& t.max_baseline_reduction >= p.baseline_reduction && t.max_baseline_reduction
                >= s.max_baseline_reduction
            &&& t.max_adjusted_reduction >= p.reduction && t.max_adjusted_reduction
                >= s.max_adjusted_reduction
            &&& t.max_baseline_reduction == p.baseline_reduction || t.max_baseline_reduction
                == s.max_baseline_reduction
            &&& t.max_adjusted_reduction == p.reduction || t.max_adjusted_reduction
                == s.max_adjusted_reduction
        }),
        summary_of(plans, 0).baseline_sum == 0,
        summary_of(plans, 0).adjusted_sum == 0,
        summary_of(plans, 0).max_adjusted_reduction == 0,
        summary_of(plans, 0).max_baseline_reduction == 0,
{
    let n = plans.len() as int;
    lemma_same_totals(plans, plans.push(p), n);
    lemma_sums_fit(plans, n);
}

proof fn lemma_same_totals(a: Seq<RootLmrPlan>, b: Seq<RootLmrPlan>, n: int)
    requires
        0 <= n <= a.len(),
        n <= b.len(),
        forall|i: int| 0 <= i < n ==> #[trigger] a[i] == b[i],
    ensures
        summary_of(a, n) == summary_of(b, n),
    decreases n,
{
    if n > 0 {
        lemma_same_totals(a, b, n - 1);
        assert(a[n - 1] == b[n - 1]);
    }
}

/// Three quarters of the moves, and not a move more than that and one, are no
/// colder than the quartile.
pub proof fn lemma_quartile_place(n: int)
    requires
        n > 0,
    ensures
        0 <= p75_index(n) < n,
        4 * p75_index(n) <= 3 * n < 4 * (p75_index(n) + 1),
{
}

/// Gains in the race add up over moves, count nothing where nothing changes, grow
/// by one with each step that we come nearer or the opponent gets farther, and a
/// move of the opponent that does the same to the opponent's race takes them back.
pub proof fn lemma_race_gains_add_up(our: int, opp: int, our2: int, opp2: int, our3: int, opp3: int)
    ensures
        race_gain(our, opp, our, opp) == (0int, 0int, 0int),
        race_gain(our, opp, our2, opp2).2 + race_gain(our2, opp2, our3, opp3).2 == race_gain(
            our,
            opp,
            our3,
            opp3,
        ).2,
        race_gain(our, opp, our - 1, opp) == (1int, 0int, 1int),
        race_gain(our, opp, our, opp + 1) == (0int, 1int, 1int),
        race_gain(our, opp, our2, opp2).2 == -race_gain(opp, our, opp2, our2).2,
{
}

/// The first worker takes the narrowest fringe; every other one, of fewer than
/// 65,536, a wider one the later it comes, up to seventy percent.
pub proof fn lemma_later_workers_are_bolder(a: int, b: int)
    requires
        0 <= a < b < 65_536,
    ensures
        worker_fringe(a) <= worker_fringe(b) <= 70,
        b <= 7 ==> worker_fringe(a) < worker_fringe(b),
        worker_fringe(0) == 5,
{
}

/// What the fringe leaves of a child: one ply on it, at least two above it, never
/// less than one of one or more. Nothing is cut from a child of one ply.
pub proof fn lemma_fringe_leaves_one_ply<H: Fn(i32, u16, u16, u32) -> HeatShare>(
    mv: Move,
    cat_cm: i32,
    refs: CatHeatRefs,
    ceiling: u16,
    fringe_pct: u16,
    full: u32,
    heat: H,
    r: int,
)
    requires
        cut_by_fringe(mv, cat_cm, refs, ceiling, fringe_pct, full, heat, r),
        shares(heat),
    ensures
        full >= 1 ==> 0 <= r <= full - 1,
        full >= 2 && cat_cm <= 0 ==> full - r == 1,
        full >= 2 && cat_cm > ceiling ==> full - r >= 2 || ceiling == 0 || (if mv is Wall {
            refs.walls
        } else {
            refs.all
        }) == 0,
        full >= 2 && mv is Wall && refs.walls <= ceiling && 100 * cat_cm <= refs.walls * fringe_pct
            && fringe_pct <= 100 ==> full - r == 1,
        full >= 2 && mv is Wall && 0 < refs.walls <= ceiling && 100 * cat_cm > refs.walls
            * fringe_pct + 99 && fringe_pct <= 100 ==> full - r >= 2,
{
    let cat_ref = least(ref_max(mv, refs) as int, ceiling as int);
    let pct = least(fringe_pct as int, 100);
    assert(0 <= cat_ref * pct <= cat_ref * 100) by (nonlinear_arith)
        requires
            0 <= cat_ref,
            0 <= pct <= 100,
    ;
    assert(0 <= fringe_of(cat_ref, fringe_pct as int) <= cat_ref);
    if full >= 2 && cat_ref > 0 && cat_cm > fringe_of(cat_ref, fringe_pct as int) {
        let x = choose|x: int|
            #![trigger least(x, full - 2)]
            keeps_depth(
                heat,
                cat_cm,
                cat_ref as u16,
                fringe_of(cat_ref, fringe_pct as int) as u16,
                full,
                full - x,
            ) && r == least(x, full - 2);
        assert(r == least(x, full - 2));
    }
}

/// What a plan rests on: the delays of a late wall are what both ways grow by, and
/// the gain of a pawn move is what the own way shrinks by.
pub proof fn lemma_plans_measure_the_ways(ps: PlanScene, i: int, mv: Move)
    requires
        ps.order.board.wf(),
        wall_on_grid(mv),
    ensures
        ({
            let b = ps.order.board;
            let us = b.side_to_move;
            let them = us.opposite_spec();
            &&& mv is Pawn || i < 4 ==> ps.delays(i, mv) is None
            &&& mv is Wall && i >= 4 ==> (ps.delays(i, mv) matches Some(d) && {
                &&& has_path(walled(b, mv), them) ==> goal_dist(walled(b, mv), them)
                    == ps.order.opp_dist + d.0
                &&& has_path(walled(b, mv), us) ==> goal_dist(walled(b, mv), us)
                    == ps.order.our_dist + d.1
            })
            &&& mv is Wall || i == 0 ==> ps.self_gain(i, mv) is None
            &&& i > 0 ==> (mv matches Move::Pawn { row, col } ==> (ps.self_gain(i, mv) matches Some(
                g,
            ) && (reach(board_steps(b), goal_squares(us), row * 9 + col) ==> dist(
                board_steps(b),
                goal_squares(us),
                row * 9 + col,
            ) == ps.order.our_dist - g)))
        }),
{
    let b = ps.order.board;
    let us = b.side_to_move;
    if mv is Wall {
        lemma_walled_dist_fits(b, mv, us);
        lemma_walled_dist_fits(b, mv, us.opposite_spec());
    }
}

proof fn lemma_walled_dist_fits(b: Board, mv: Move, player: Player)
    requires
        b.wf(),
        wall_on_grid(mv),
        mv is Wall,
    ensures
        has_path(walled(b, mv), player) ==> dist_or_penalty(walled(b, mv), player) == goal_dist(
            walled(b, mv),
            player,
        ),
{
    let t = walled(b, mv);
    if has_path(t, player) {
        assert(pawn_sq(t, player) == pawn_sq(b, player));
        assert(0 <= pawn_sq(b, player) < 81);
        lemma_dist_bound(board_steps(t), goal_squares(player), pawn_sq(t, player));
    }
}

/// What a plan tells of a move is so: the first move and shallow searches pass for
/// tactical, later pawn moves exactly if they gain, later walls only if they
/// lengthen the opponent's way; a move is cold below the profile's limit; and no
/// more plies are used than there are, before reductions or after.
pub proof fn lemma_plans_tell_the_truth<F: Fn(i32, u16, u16, u16) -> bool>(
    ps: PlanScene,
    i: int,
    mv: Move,
    reaches: F,
    p: RootLmrPlan,
)
    requires
        ps.is_plan(i, mv, reaches, p),
        i >= 0,
    ensures
        p.is_pawn <==> mv is Pawn,
        p.mv@ == move_chars(mv),
        p.child_depth_full == ps.depth - 1,
        i == 0 || ps.depth < 2 ==> p.tactical,
        i > 0 && ps.depth >= 2 && mv is Pawn ==> (p.tactical <==> our_gain_spec(
            ps.order.board,
            mv,
            ps.order.our_dist,
        ) > 0),
        i > 0 && ps.depth >= 2 && mv is Wall && p.tactical ==> opp_gain_spec(
            ps.order.board,
            mv,
            ps.order.opp_dist,
        ) > 0,
        p.cold <==> p.cat_cm < ps.profile.cold_cm,
        ps.attention(mv).hot() ==> p.hot,
        p.baseline_child_depth_used + p.baseline_reduction >= p.baseline_child_depth_full,
        p.baseline_child_depth_used <= p.baseline_child_depth_full,
        p.baseline_child_depth_used > 0 ==> p.baseline_child_depth_used + p.baseline_reduction
            == p.baseline_child_depth_full,
        p.final_reduction == p.reduction,
{
}

} // verus!
