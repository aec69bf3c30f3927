//! What the parts of a search promise.

use vstd::prelude::*;

use crate::ace::backing::Node;
use crate::ace::bridge::TiBridge;
use crate::ace::certify::{legal_in, lemma_legal_playable};
use crate::ace::convert::{keys_match, lemma_after_keeps_keys, lemma_wall_slot, to_board};
use crate::ace::deepen::{
    allotted_spec, concluded, depth_limit, generation_of, reserve_spec, resume_spec,
    runs_through, searched, Found,
};
use crate::ace::eval::MATE;
use crate::ace::game::{is_pawn_move, lemma_ace_unmake_restores, AceState};
use crate::ace::movelist::{
    lemma_walls_listed, lets_through, node_moves, walls_listed, GenMode, WallScene,
};
use crate::ace::node::{
    cutoff_spec, node_relative, repeats_history, rewarded, root_relative, Cutoff,
};
use crate::ace::order::{graduated, lemma_sorted, lemma_sorted_lists, sorted_desc, OrderKey};
use crate::ace::racelaws::surely;
use crate::ace::score::{left_out, seals_off};
use crate::ace::search::{AceDepthLogEntry, AceSearch};
use crate::ace::table::{Bound, Table, TableEntry};
use crate::ace::think::ThinkResult;
use crate::cat::placelaws::{around, lemma_walls_worth_searching};
use crate::cat::prune::{blocks_step, dead_zone, wall_on_grid};
use crate::position::board::Move;
use crate::util::bits::bit128;

verus! {

// --- order ---

/// History values stay below the table's move.
pub open spec fn history_in_range(k: OrderKey) -> bool {
    forall|m: int| 0 <= m < k.history.len() ==> 0 <= #[trigger] k.history[m] <= 1_073_676_289
}

/// A wall that no hint names.
pub open spec fn plain_wall(k: OrderKey, m: i16) -> bool {
    m >= 100 && m != k.tt_move && m != k.k0 && m != k.k1 && m != k.cm_move
}

/// The order of moves: the table's move comes first; of two pawn moves the one
/// nearer to the goal; of two plain walls the one with more history; no plain wall
/// with less history than a hint is worth comes before a hinted one, nor before a
/// pawn move; the first killer comes before the answer to the last move, and that
/// before the second killer.
pub proof fn lemma_order_of_moves(list: Seq<i16>, k: OrderKey, i: int, j: int)
    requires
        0 <= i < j < list.len(),
        history_in_range(k),
        k.history.len() == 512,
        k.dist_me.len() == 81,
        forall|n: int| 0 <= n < list.len() ==> 0 <= #[trigger] list[n] < 512,
        forall|n: int| 0 <= n < list.len() ==> (#[trigger] list[n] < 100 ==> list[n] < 81),
    ensures
        ({
            let s = sorted_desc(list, k, list.len() as int);
            let a = s[i];
            let b = s[j];
            &&& s.len() == list.len()
            &&& b == k.tt_move ==> a == k.tt_move
            &&& a < 100 && b < 100 && a != k.tt_move && b != k.tt_move
                ==> k.dist_me[a as int] <= k.dist_me[b as int]
            &&& plain_wall(k, a) && plain_wall(k, b) ==> k.history[a as int]
                >= k.history[b as int]
            &&& plain_wall(k, a) && b < 100 ==> k.history[a as int] >= 745_000
            &&& plain_wall(k, a) && b >= 100 && !plain_wall(k, b) ==> k.history[a as int]
                >= 850_000
            &&& a >= 100 && b >= 100 && !plain_wall(k, a) && a != k.tt_move && b != k.tt_move && b
                == k.k0 ==> a == k.k0
            &&& a >= 100 && b >= 100 && !plain_wall(k, a) && a != k.tt_move && b != k.tt_move && b
                == k.cm_move ==> a == k.k0 || a == k.cm_move
        }),
{
    let n = list.len() as int;
    lemma_sorted(list, k, n);
    let s = sorted_desc(list, k, n);
    assert(list.subrange(0, n) =~= list);
    assert(list.contains(s[i]) && list.contains(s[j]));
    let x = choose|x: int| 0 <= x < list.len() && list[x] == s[i];
    let y = choose|y: int| 0 <= y < list.len() && list[y] == s[j];
    assert(0 <= list[x] < 512 && 0 <= list[y] < 512);
    assert(k.score(s[i]) >= k.score(s[j]));
    assert(0 <= k.history[s[i] as int] <= 1_073_676_289);
    assert(0 <= k.history[s[j] as int] <= 1_073_676_289);
}

/// The table's move, where it is one of the moves, is tried first.
pub proof fn lemma_table_move_first(list: Seq<i16>, k: OrderKey)
    requires
        list.contains(k.tt_move),
        history_in_range(k),
        k.history.len() == 512,
        k.dist_me.len() == 81,
        forall|n: int| 0 <= n < list.len() ==> 0 <= #[trigger] list[n] < 512,
        forall|n: int| 0 <= n < list.len() ==> (#[trigger] list[n] < 100 ==> list[n] < 81),
    ensures
        sorted_desc(list, k, list.len() as int)[0] == k.tt_move,
{
    let n = list.len() as int;
    let j = choose|j: int| 0 <= j < list.len() && list[j] == k.tt_move;
    lemma_sorted(list, k, n);
    lemma_sorted_lists(list, k, n, j);
    let i = choose|i: int| 0 <= i < n && #[trigger] sorted_desc(list, k, n)[i] == list[j];
    if i > 0 {
        lemma_order_of_moves(list, k, 0, i);
    }
}

/// What a node leaves out: walls only, and of those that are no seal only late
/// ones below the root with two plies or less left, and only once a move was found
/// that is not about to lose.
pub proof fn lemma_left_out_are_late_walls(
    gen: GenMode,
    x: Node,
    tt_move: i16,
    m: i16,
    got: Seq<Option<int>>,
    i: int,
)
    requires
        left_out(gen, x, tt_move, m, got, i),
    ensures
        m >= 100,
        x.ply > 0,
        seals_off(gen, x.s, x.ply, m) || (i >= 10 && x.depth <= 2 && m != tt_move && exists|j: int|
            0 <= j < i && ((#[trigger] got[j]) matches Some(b) && b > -(MATE - 200))),
{
    if !seals_off(gen, x.s, x.ply, m) {
        let j = choose|j: int|
            0 <= j < i && ((#[trigger] got[j]) matches Some(b) && b > -MATE + 200);
        assert(got[j] matches Some(b) && b > -(MATE - 200));
    }
}

// --- table ---

/// Which entries give way: free ones and those of earlier generations always; one
/// of this generation only to a search that is no less deep.
pub proof fn lemma_deeper_entry_stays(t: Table, e: TableEntry, depth: i32)
    ensures
        !e.used ==> t.replaces(e, depth, false) && t.replaces(e, depth, true),
        e.used && e.depth > depth ==> !t.replaces(e, depth, true),
        e.used && e.depth > depth && e.generation == t.generation ==> !t.replaces(e, depth, false),
        e.generation != t.generation ==> t.replaces(e, depth, false),
        e.depth <= depth ==> t.replaces(e, depth, false) && t.replaces(e, depth, true),
{
}

/// What the table may decide: never at the root, never with less depth than asked
/// for, never by a tainted entry; a lower bound only from beta on, an upper bound
/// only up to alpha.
pub proof fn lemma_cutoff_is_sound(e: TableEntry, depth: int, ply: int, alpha: int, beta: int)
    requires
        -200_100 <= e.score <= 200_100,
        0 <= ply < 64,
    ensures
        cutoff_spec(e, depth, ply, alpha, beta) matches Cutoff::Score(x) ==> {
            &&& ply > 0
            &&& e.depth >= depth
            &&& !e.tainted
            &&& x == root_relative(e.score as int, ply)
            &&& e.bound == Bound::Lower ==> x >= beta
            &&& e.bound == Bound::Upper ==> x <= alpha
        },
        ply > 0 && e.depth >= depth && !e.tainted && e.bound == Bound::Exact ==> cutoff_spec(
            e,
            depth,
            ply,
            alpha,
            beta,
        ) is Score,
{
}

/// A cutoff by a wall raises that wall's history above where it was relative to
/// every other, and halves all where it grows too large.
pub proof fn lemma_reward_raises(h: Seq<i32>, m: int, depth: int, j: int)
    requires
        h.len() == 512,
        0 <= m < 512,
        0 <= j < 512,
        1 <= depth <= 32_767,
        forall|i: int| 0 <= i < 512 ==> 0 <= #[trigger] h[i] <= 1_073_676_289,
    ensures
        h[m] >= h[j] ==> rewarded(h, m, depth)[m] >= rewarded(h, m, depth)[j],
        h[m] + depth * depth <= 100_000_000 && j != m ==> rewarded(h, m, depth)[j] == h[j],
        h[m] + depth * depth <= 100_000_000 ==> rewarded(h, m, depth)[m] == h[m] + depth * depth,
        h[m] + depth * depth > 100_000_000 && j != m ==> rewarded(h, m, depth)[j] == h[j] / 2,
{
    assert(1 <= depth * depth <= 1_073_676_289) by (nonlinear_arith)
        requires
            1 <= depth <= 32_767,
    ;
    let r = h.update(m, (h[m] + depth * depth) as i32);
    assert(h[m] <= 1_073_676_289);
    assert(r[m] == h[m] + depth * depth);
}

// --- repetition ---

/// Two pawns that go away and come back repeat the position.
pub proof fn lemma_there_and_back_repeats(s: AceState, a: i16, b: i16)
    requires
        s.wf(),
        keys_match(s),
        s.hist.len() < i32::MAX - 10,
        s.wl0 <= i32::MAX,
        s.wl1 <= i32::MAX,
        is_pawn_move(a),
        is_pawn_move(b),
        is_pawn_move(s.pawn(s.turn) as i16),
        is_pawn_move(s.pawn(1 - s.turn) as i16),
    ensures
        ({
            let back_a = s.pawn(s.turn) as i16;
            let back_b = s.pawn(1 - s.turn) as i16;
            let t = s.after(a).after(b).after(back_a).after(back_b);
            t.lo == s.lo && t.hi == s.hi && repeats_history(t)
        }),
{
    let back_a = s.pawn(s.turn) as i16;
    let back_b = s.pawn(1 - s.turn) as i16;
    let s1 = s.after(a);
    let s2 = s1.after(b);
    let s3 = s2.after(back_a);
    let t = s3.after(back_b);
    lemma_after_keeps_keys(s, a);
    lemma_ace_unmake_restores(s, a);
    lemma_after_keeps_keys(s1, b);
    lemma_ace_unmake_restores(s1, b);
    lemma_after_keeps_keys(s2, back_a);
    lemma_ace_unmake_restores(s2, back_a);
    lemma_after_keeps_keys(s3, back_b);
    lemma_ace_unmake_restores(s3, back_b);
    assert(t.p0 == s.p0 && t.p1 == s.p1 && t.turn == s.turn && t.h == s.h && t.v == s.v);
    assert(t.lo == s.lo && t.hi == s.hi);
    let n = s.hist.len() as int;
    assert(t.hist.len() == n + 4);
    assert(s1.hist[n].lo == s.lo && s1.hist[n].hi == s.hi);
    assert(s2.hist[n] == s1.hist[n]);
    assert(s3.hist[n] == s1.hist[n]);
    assert(t.hist[n] == s1.hist[n]);
    assert(t.last_wall_ply == s.last_wall_ply);
}

/// A wall wipes the slate: right after one nothing repeats.
pub proof fn lemma_wall_ends_repetition(s: AceState, m: i16)
    requires
        s.wf(),
        !is_pawn_move(m),
    ensures
        !repeats_history(s.after(m)),
{
    let t = s.after(m);
    assert(t.last_wall_ply == t.hist.len());
}

// --- time ---

/// The time kept back for the check of a last wall is at most 30 percent and,
/// where that leaves room, at least 25 ms, 15 percent and what a table takes; with
/// what the iterations get it makes up the time.
pub proof fn lemma_time_is_shared(a: AceSearch, time_ms: int, build_ms: int)
    requires
        time_ms >= 0,
        build_ms >= 0,
    ensures
        0 <= 100 * reserve_spec(time_ms, build_ms) <= 30 * time_ms,
        100 * (reserve_spec(time_ms, build_ms) + 1) > 15 * time_ms,
        time_ms * 30 / 100 >= 25 ==> reserve_spec(time_ms, build_ms) >= 25,
        time_ms * 30 / 100 >= build_ms ==> reserve_spec(time_ms, build_ms) >= build_ms,
        70 * time_ms <= 100 * allotted_spec(a, time_ms) <= 100 * time_ms,
        a.g@.wl(a.g@.turn) != 1 ==> allotted_spec(a, time_ms) == time_ms,
        allotted_spec(a, time_ms) == time_ms || allotted_spec(a, time_ms) + reserve_spec(
            time_ms,
            a.race.build_ms as int,
        ) == time_ms,
{
}

/// Where iterations start: at depth one, unless an exact entry of depth four or
/// more is there; then two plies short of it, with its score.
pub proof fn lemma_resumes_short_of_what_is_known(pure_mode: bool, e: Option<TableEntry>)
    ensures
        ({
            let r = resume_spec(pure_mode, e);
            &&& r.0 >= 1
            &&& r.0 > 1 ==> !pure_mode && (e matches Some(x) && x.bound == Bound::Exact && r.0 + 2
                == x.depth && r.1 == x.score)
            &&& pure_mode || e is None ==> r == (1int, 0int)
        }),
{
}

/// A full search goes on until the depth is reached or the game is decided; no
/// search stops early on an easy move before depth nine, while it is losing,
/// within 30 percent of its time, or while its last four iterations disagree.
pub proof fn lemma_searches_run_their_course(
    log: Seq<AceDepthLogEntry>,
    from: int,
    limit: int,
    full: bool,
    elapsed_ms: int,
    time_ms: int,
)
    requires
        runs_through(log, from, limit, full, elapsed_ms, time_ms),
        1 <= from <= limit,
    ensures
        log.len() > 0,
        log[0].depth == from,
        forall|i: int| 0 < i < log.len() ==> (#[trigger] log[i]).depth == log[i - 1].depth + 1,
        full ==> log.last().depth == limit || log.last().score > MATE - 200 || log.last().score < -(
        MATE - 200),
        log.last().depth < limit && -(MATE - 200) <= log.last().score <= MATE - 200 ==> {
            &&& log.last().depth >= 9
            &&& log.last().score > -120
            &&& elapsed_ms * 100 > time_ms * 30
            &&& forall|j: int|
                #![trigger log[log.len() - 1 - j]]
                0 <= j <= 3 && j < log.len() ==> log[log.len() - 1 - j].pv@ == log.last().pv@
        },
        forall|i: int|
            0 <= i < log.len() - 1 ==> -(MATE - 200) <= (#[trigger] log[i]).score <= MATE - 200,
{
    assert forall|i: int| 0 < i < log.len() implies (#[trigger] log[i]).depth == log[i - 1].depth
        + 1 by {
        assert(log[i].depth == from + i);
        assert(log[i - 1].depth == from + (i - 1));
    }
    assert(log[0].depth == from + 0);
}

/// A search that is neither pure nor pondering writes into a new generation, any
/// other into the one before.
pub proof fn lemma_generations(a: AceSearch)
    ensures
        a.config.pure_mode || a.config.is_pondering <==> generation_of(a) == a.tt.generation,
        0 <= generation_of(a) <= 255,
{
}

/// The check of a last wall: where no walls are left after it, it is played if the
/// opponent surely loses the race then, and not if the opponent surely wins it;
/// then the best pawn move is played in its place.
pub proof fn lemma_last_wall_is_checked(a: AceSearch, f: Found, r: ThinkResult)
    requires
        concluded(a, f, r),
        a.config.eval.race_proof,
        f.best >= 100,
        f.pawn_best >= 0,
        a.g@.wl(a.g@.turn) == 1,
        f.score < MATE - 200,
        f.pawn_score > -(MATE - 200),
        a.g@.winner_spec() == -1,
        a.g@.after(f.best).wl0 == 0,
        a.g@.after(f.best).wl1 == 0,
    ensures
        surely(a.g@.after(f.best), true) ==> r.mv == f.pawn_best && r.score == f.pawn_score,
        surely(a.g@.after(f.best), false) ==> r.mv == f.best && r.score == f.score,
        r.mv == f.best || r.mv == f.pawn_best,
{
}

/// What is checked: walls only, the mover's last, with a pawn move to fall back
/// on; and nothing else is ever replaced.
pub proof fn lemma_only_last_walls_are_replaced(a: AceSearch, f: Found, r: ThinkResult)
    requires
        concluded(a, f, r),
        a.g@.winner_spec() == -1,
        crate::ace::certify::legal_in(a.g@, f.best),
        r.mv != f.best,
    ensures
        f.best >= 100,
        a.g@.wl(a.g@.turn) == 1,
        r.mv == f.pawn_best,
        r.score == f.pawn_score,
        a.config.eval.race_proof,
{
}

/// A search on a clock that has just started and does not run: it iterates from
/// where it resumes, one depth after the other; a full one to its depth, unless
/// the game is decided before.
pub proof fn lemma_unhurried_search_goes_to_its_depth(
    a: AceSearch,
    b: AceSearch,
    time_ms: int,
    max_depth: int,
    r: ThinkResult,
)
    requires
        searched(a, b, Some(0), time_ms, max_depth, true, r),
        time_ms >= 2,
        max_depth >= 1,
        resume_spec(a.config.pure_mode, a.tt.find(a.g@.lo, a.g@.hi)).0 <= max_depth,
    ensures
        r.depth_log@.len() > 0,
        r.depth_log@[0].depth == resume_spec(
            a.config.pure_mode,
            a.tt.find(a.g@.lo, a.g@.hi),
        ).0,
        forall|i: int|
            0 < i < r.depth_log@.len() ==> (#[trigger] r.depth_log@[i]).depth == r.depth_log@[i
                - 1].depth + 1,
        r.depth_log@.last().depth == max_depth || r.depth_log@.last().score > MATE - 200
            || r.depth_log@.last().score < -(MATE - 200),
        r.ms == 0,
{
    let from = resume_spec(a.config.pure_mode, a.tt.find(a.g@.lo, a.g@.hi)).0;
    lemma_time_is_shared(a, time_ms, a.race.build_ms as int);
    lemma_resumes_short_of_what_is_known(a.config.pure_mode, a.tt.find(a.g@.lo, a.g@.hi));
    assert(depth_limit(max_depth) == max_depth);
    lemma_searches_run_their_course(r.depth_log@, from, max_depth, true, 0, time_ms);
}

/// A depth that is not given is thirty.
pub proof fn lemma_depth_of_a_search(max_depth: int)
    ensures
        max_depth > 0 ==> depth_limit(max_depth) == max_depth,
        max_depth <= 0 ==> depth_limit(max_depth) == 30,
{
}

/// An arrival that is `n` plies from the root, found at ply `found` and stored, is
/// read at ply `met` as one that is as many plies from there as it was from where
/// it was found; other scores are the same everywhere.
pub proof fn lemma_stored_arrivals_count_from_the_node(n: int, found: int, met: int, score: int)
    requires
        0 <= found <= n < 128,
        0 <= met < 64,
        -99_872 <= score <= 99_872,
    ensures
        root_relative(node_relative(MATE - n, found), met) == MATE - (met + (n - found)),
        root_relative(node_relative(-(MATE - n), found), met) == -(MATE - (met + (n - found))),
        root_relative(node_relative(score, found), met) == score,
{
}

/// Early walls are searched one ply deeper at least, late ones one ply less deep at
/// least; no later wall less reduced, and none at a greater depth.
pub proof fn lemma_reductions_grow(i: int, j: int, depth: int, deeper: int)
    requires
        i <= j,
        depth <= deeper,
    ensures
        1 <= graduated(i, depth) <= graduated(j, depth) <= 3,
        graduated(i, depth) <= graduated(i, deeper),
        graduated(i, depth) > 1 <==> i >= 12,
        graduated(i, depth) > 2 <==> i >= 24 && depth >= 6,
{
}

/// What a search that leaves walls out below the root still lists: every pawn
/// move, whatever else it does; where walls go by their heat, the table's wall and
/// every wall inside the region that cuts the opponent's way; where only dead
/// zones are left out, every wall with a square of the region around it.
pub proof fn lemma_short_lists_keep_what_matters(
    mode: GenMode,
    bridge: Option<TiBridge>,
    s: AceState,
    scene: WallScene,
    ply: int,
    m: i16,
    k: int,
)
    requires
        s.wf(),
        ply > 0,
        mode.cat_walls || mode.dead_zone_prune,
        legal_in(s, m),
    ensures
        m < 100 ==> node_moves(mode, bridge, s, scene, ply).contains(m),
        mode.cat_walls && m == scene.tt_move ==> node_moves(mode, bridge, s, scene, ply).contains(
            m,
        ),
        mode.cat_walls && m >= 100 && (to_board(m) matches Move::Wall { row, col, .. } && forall|
            sq: int,
        |
            around(row as int, col as int, sq) ==> #[trigger] bit128(scene.reachable, sq)) && 0 <= k
            < scene.opp_path_len - 1 && blocks_step(
            to_board(m),
            scene.opp_path@[k] as int,
            scene.opp_path@[k + 1] as int,
        ) ==> node_moves(mode, bridge, s, scene, ply).contains(m),
        !mode.cat_walls && m >= 100 && (to_board(m) matches Move::Wall { row, col, .. } && exists|
            sq: int,
        |
            around(row as int, col as int, sq) && #[trigger] bit128(scene.reachable, sq))
            ==> node_moves(mode, bridge, s, scene, ply).contains(m),
{
    let list = node_moves(mode, bridge, s, scene, ply);
    let cells = s.pawn_cells();
    if m < 100 {
        let c = choose|c: int| 0 <= c < cells.len() && cells[c] == m;
        assert(list[c] == m);
    } else {
        let rule = mode.rule(ply);
        let walls = walls_listed(rule, scene, s, 64);
        lemma_walls_listed(rule, scene, s, 64);
        lemma_wall_slot(m);
        lemma_legal_playable(s, m);
        assert(wall_on_grid(to_board(m)));
        lemma_walls_worth_searching(
            scene.board,
            to_board(m),
            scene.cat,
            scene.reachable,
            scene.gap_zone,
            scene.opp_path@,
            scene.opp_path_len as int,
        );
        if lets_through(rule, scene, s, m) {
            let i = choose|i: int| 0 <= i < walls.len() && walls[i] == m;
            assert(list[cells.len() + i] == m);
        }
        if !mode.cat_walls {
            assert(lets_through(rule, scene, s, m) == !dead_zone(to_board(m), scene.reachable));
        }
    }
}

/// What was found is what is told: a pawn move, or a wall that is not the last,
/// with its own score; and in any case with the depth at which it was found.
pub proof fn lemma_found_is_told(a: AceSearch, f: Found, r: ThinkResult)
    requires
        concluded(a, f, r),
        a.g@.winner_spec() == -1,
        legal_in(a.g@, f.best),
    ensures
        r.depth == f.depth,
        f.best < 100 || a.g@.wl(a.g@.turn) != 1 ==> r.mv == f.best && r.score == f.score,
        r.score == f.score || r.score == f.pawn_score,
{
}

} // verus!
