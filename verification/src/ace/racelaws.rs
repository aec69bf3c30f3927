//! What choosing a move in a race comes to.

use vstd::prelude::*;

use crate::ace::certify::{can_force, forced, legal_in};
use crate::ace::certmemo::race_taken;
use crate::ace::deepen::{race_result, table_result};
use crate::ace::eval::RACE_MATE;
use crate::ace::game::{lemma_pawn_cells, AceState};
use crate::ace::openrace::{
    lead, lemma_open_race_settled, lemma_race_behind, lemma_race_forward, lemma_race_is_forced,
    lemma_rows_to_go, open_race,
};
use crate::ace::race::{
    on_goal, race_of, state_index, RaceState,
};
use crate::ace::racecache::{keyed_race_value, table_for, wall_hi, wall_lo};
use crate::ace::raceroot::{
    are_worths, is_first_best, race_key, race_pick, race_score, race_worth, table_worth,
    table_worths,
};
use crate::ace::racetable::{is_race_table, race_value_is};
use crate::ace::think::ThinkResult;

verus! {

/// Not both sides can force the win.
pub proof fn lemma_one_side_forces(s: AceState, n: nat, m: nat)
    requires
        forced(s, 0, n),
        0 <= s.turn < 2,
    ensures
        !forced(s, 1, m),
    decreases n, m,
{
    if forced(s, 1, m) && s.winner_spec() == -1 {
        assert(n > 0 && m > 0);
        if s.turn == 0 {
            let x = choose|x: i16| #[trigger]
                legal_in(s, x) && forced(s.after(x), 0, (n - 1) as nat);
            assert(forced(s.after(x), 1, (m - 1) as nat));
            lemma_one_side_forces(s.after(x), (n - 1) as nat, (m - 1) as nat);
        } else {
            let x = choose|x: i16| #[trigger]
                legal_in(s, x) && forced(s.after(x), 1, (m - 1) as nat);
            assert(forced(s.after(x), 0, (n - 1) as nat));
            lemma_one_side_forces(s.after(x), (n - 1) as nat, (m - 1) as nat);
        }
    }
}

/// If one side can force the win, the other cannot.
pub proof fn lemma_other_cannot_force(s: AceState, w: int)
    requires
        can_force(s, w),
        0 <= w < 2,
        0 <= s.turn < 2,
    ensures
        !can_force(s, 1 - w),
{
    let o = 1 - w;
    let n = choose|n: nat| forced(s, w, n);
    if can_force(s, o) {
        let m = choose|m: nat| forced(s, o, m);
        if w == 0 {
            lemma_one_side_forces(s, n, m);
        } else {
            lemma_one_side_forces(s, m, n);
        }
    }
}

/// The race is taken one way only: it is settled, and not for want of a proof.
pub open spec fn surely(s: AceState, stm_wins: bool) -> bool {
    race_taken(s, stm_wins) && !race_taken(s, !stm_wins)
}

/// A pawn move that does not arrive is worth something positive exactly if the
/// opponent, to move after it, is taken to lose, and something negative exactly
/// if the opponent is taken to win.
pub proof fn lemma_worth_tells_the_winner(s: AceState, c: i16, v: int)
    requires
        race_worth(s, c, v),
        !on_goal(s.turn, c as int),
        s.after(c).goal_dist(0) >= 0,
        s.after(c).goal_dist(1) >= 0,
        0 <= s.turn < 2,
    ensures
        v != 0,
        v > 0 ==> race_taken(s.after(c), false),
        v < 0 ==> race_taken(s.after(c), true),
        surely(s.after(c), true) ==> v < 0,
        surely(s.after(c), false) ==> v > 0,
{
}

/// Distances are not negative.
pub proof fn lemma_dist_nonneg(s: AceState, p: int)
    ensures
        s.goal_dist(p) >= 0,
{
    let st = crate::path::graph::wall_steps(s.h, s.v);
    let g = crate::path::graph::goal_squares(crate::ace::game::grid_player(p));
    if crate::path::graph::reach(st, g, s.pawn(p)) {
        crate::path::graph::lemma_dist_reach(st, g, s.pawn(p));
    }
}

/// The move wins the race: it arrives, or the opponent surely loses after it.
pub open spec fn wins_race(s: AceState, c: i16) -> bool {
    on_goal(s.turn, c as int) || surely(s.after(c), false)
}

/// Where some pawn move wins the race, the move chosen arrives or leaves a race
/// that the opponent is taken to lose, and its worth is positive; where the worth
/// is negative, every pawn move leaves a race that the opponent is taken to win.
pub proof fn lemma_pick_wins_where_it_can(s: AceState, mv: i16, v: int)
    requires
        race_pick(s, mv, v),
        0 <= s.turn < 2,
    ensures
        v != 0,
        s.pawn_cells().contains(mv),
        (exists|c: i16| s.pawn_cells().contains(c) && #[trigger] wins_race(s, c)) ==> v > 0,
        v > 0 ==> on_goal(s.turn, mv as int) || race_taken(s.after(mv), false),
        v < 0 ==> forall|c: i16| #[trigger]
            s.pawn_cells().contains(c) ==> !on_goal(s.turn, c as int) && race_taken(
                s.after(c),
                true,
            ),
{
    let (vals, k) = choose|vals: Seq<Option<int>>, k: int|
        #![trigger is_first_best(vals, k)]
        are_worths(s, vals) && is_first_best(vals, k) && mv == s.pawn_cells()[k] && v
            == vals[k]->0;
    let cells = s.pawn_cells();
    assert(cells.contains(cells[k]));
    assert forall|i: int| 0 <= i < cells.len() implies {
        &&& vals[i]->0 != 0
        &&& vals[i]->0 > 0 ==> on_goal(s.turn, #[trigger] cells[i] as int) || race_taken(
            s.after(cells[i]),
            false,
        )
        &&& vals[i]->0 < 0 ==> !on_goal(s.turn, cells[i] as int) && race_taken(
            s.after(cells[i]),
            true,
        )
        &&& wins_race(s, cells[i]) ==> vals[i]->0 > 0
        &&& vals[i]->0 > 0 ==> v > 0
    } by {
        assert(vals[i] is Some && race_worth(s, cells[i], vals[i]->0));
        lemma_dist_nonneg(s.after(cells[i]), 0);
        lemma_dist_nonneg(s.after(cells[i]), 1);
        if !on_goal(s.turn, cells[i] as int) {
            lemma_worth_tells_the_winner(s, cells[i], vals[i]->0);
        }
        assert(-256 <= vals[k]->0 <= 256);
        assert(race_key(vals[i]->0) <= race_key(v));
    }
    assert(vals[k]->0 == v);
    assert(cells[k] == mv);
    assert forall|c: i16| #[trigger] cells.contains(c) && v < 0 implies !on_goal(s.turn, c as int)
        && race_taken(s.after(c), true) by {
        let i = choose|i: int| 0 <= i < cells.len() && cells[i] == c;
        assert(cells[i] == c);
    }
    if exists|c: i16| cells.contains(c) && #[trigger] wins_race(s, c) {
        let c = choose|c: i16| cells.contains(c) && #[trigger] wins_race(s, c);
        let i = choose|i: int| 0 <= i < cells.len() && cells[i] == c;
        assert(cells[i] == c);
    }
}

/// How a move is chosen: an arrival before all else; among moves after which the
/// opponent loses, one after which the mover is nearest to its goal; where all
/// lose, one after which the opponent is farthest from its own.
pub proof fn lemma_pick_is_quickest_or_slowest(s: AceState, mv: i16, v: int, c: i16)
    requires
        race_pick(s, mv, v),
        0 <= s.turn < 2,
        s.pawn_cells().contains(c),
    ensures
        on_goal(s.turn, c as int) ==> v == 1,
        v > 1 && surely(s.after(c), false) ==> s.after(mv).goal_dist(s.turn) <= s.after(
            c,
        ).goal_dist(s.turn),
        v < 0 ==> s.after(c).goal_dist(1 - s.turn) <= s.after(mv).goal_dist(1 - s.turn),
{
    let (vals, k) = choose|vals: Seq<Option<int>>, k: int|
        #![trigger is_first_best(vals, k)]
        are_worths(s, vals) && is_first_best(vals, k) && mv == s.pawn_cells()[k] && v
            == vals[k]->0;
    let cells = s.pawn_cells();
    let i = choose|i: int| 0 <= i < cells.len() && cells[i] == c;
    assert(vals[i] is Some && race_worth(s, cells[i], vals[i]->0));
    assert(vals[k] is Some && race_worth(s, cells[k], vals[k]->0));
    assert(race_key(vals[i]->0) <= race_key(v));
    lemma_dist_nonneg(s.after(c), 0);
    lemma_dist_nonneg(s.after(c), 1);
    lemma_dist_nonneg(s.after(mv), 0);
    lemma_dist_nonneg(s.after(mv), 1);
}

/// The score of a race says who wins it and how soon: won races score above
/// everything that a net says, lost ones below; of two worths the preferred one
/// has the higher score.
pub proof fn lemma_race_scores_in_order(v: int, w: int)
    requires
        -256 <= v <= 256,
        -256 <= w <= 256,
        v != 0,
        w != 0,
    ensures
        v > 0 ==> race_score(v) >= 49_744,
        v < 0 ==> race_score(v) <= -49_744,
        race_key(v) > race_key(w) <==> race_score(v) > race_score(w),
        0 < v < w ==> race_score(v) - race_score(w) == w - v,
        v < w < 0 ==> race_score(v) - race_score(w) == w - v,
        race_score(-v) == -race_score(v),
{
}

/// On a board without walls the resolver knows every race.
proof fn lemma_open_race_known(s: AceState, stm_wins: bool)
    requires
        open_race(race_of(s)),
        race_taken(s, stm_wins),
    ensures
        stm_wins == (lead(race_of(s)) >= 0),
{
    lemma_rows_to_go(0, s.p0);
    lemma_rows_to_go(1, s.p1);
    assert(race_of(s).rank() <= 16);
    lemma_open_race_settled(s, stm_wins);
}

/// Without walls on the board and in hand, the move chosen wins exactly if the
/// side to move can force the win, and then the win can still be forced after it.
pub proof fn lemma_open_pick_is_right(s: AceState, mv: i16, v: int)
    requires
        race_pick(s, mv, v),
        open_race(race_of(s)),
        s.wl0 == 0,
        s.wl1 == 0,
    ensures
        v > 0 <==> can_force(s, s.turn),
        v < 0 <==> can_force(s, 1 - s.turn),
        v > 0 ==> can_force(s.after(mv), s.turn),
        legal_in(s, mv),
{
    let q = race_of(s);
    let (vals, k) = choose|vals: Seq<Option<int>>, k: int|
        #![trigger is_first_best(vals, k)]
        are_worths(s, vals) && is_first_best(vals, k) && mv == s.pawn_cells()[k] && v
            == vals[k]->0;
    let cells = s.pawn_cells();
    assert(q.cells() == cells);
    lemma_pawn_cells(s.h, s.v, s.pawn(s.turn), s.pawn(1 - s.turn));
    assert(cells.contains(mv));
    lemma_pick_wins_where_it_can(s, mv, v);
    assert(vals[k] is Some && race_worth(s, cells[k], vals[k]->0));
    if lead(q) >= 0 {
        let i = lemma_race_forward(q);
        let c = cells[i];
        let t = s.after(c);
        assert(vals[i] is Some && race_worth(s, cells[i], vals[i]->0));
        assert(race_of(t) == q.child(c as int));
        lemma_dist_nonneg(t, 0);
        lemma_dist_nonneg(t, 1);
        if !on_goal(s.turn, c as int) {
            if race_taken(t, true) {
                lemma_open_race_known(t, true);
            }
        }
        assert(vals[i]->0 > 0);
        assert(race_key(vals[i]->0) <= race_key(v));
        assert(v > 0);
        lemma_open_forced(s, true);
        let u = s.after(mv);
        assert(race_of(u) == q.child(mv as int));
        if on_goal(s.turn, mv as int) {
            assert(forced(u, s.turn, 0));
        } else {
            lemma_child_open(s, k);
            lemma_open_race_known(u, false);
            lemma_open_forced(u, false);
        }
    } else {
        lemma_race_behind(q, k);
        let u = s.after(mv);
        assert(race_of(u) == q.child(mv as int));
        lemma_dist_nonneg(u, 0);
        lemma_dist_nonneg(u, 1);
        if race_taken(u, false) {
            lemma_open_race_known(u, false);
        }
        assert(v < 0);
        lemma_open_forced(s, false);
    }
}

/// After a pawn move that does not arrive, the race goes on.
proof fn lemma_child_open(s: AceState, i: int)
    requires
        open_race(race_of(s)),
        0 <= i < s.pawn_cells().len(),
        !on_goal(s.turn, s.pawn_cells()[i] as int),
    ensures
        open_race(race_of(s.after(s.pawn_cells()[i]))),
{
    crate::ace::openrace::lemma_cell_is_free(race_of(s), i);
}

/// Who leads an open race can force the win, and the other cannot.
proof fn lemma_open_forced(s: AceState, stm_wins: bool)
    requires
        open_race(race_of(s)),
        s.wl0 == 0,
        s.wl1 == 0,
        stm_wins == (lead(race_of(s)) >= 0),
    ensures
        stm_wins ==> can_force(s, s.turn) && !can_force(s, 1 - s.turn),
        !stm_wins ==> can_force(s, 1 - s.turn) && !can_force(s, s.turn),
{
    crate::ace::openrace::lemma_lead_forces(s);
    if stm_wins {
        lemma_other_cannot_force(s, s.turn);
    } else {
        lemma_other_cannot_force(s, 1 - s.turn);
    }
}

/// What a search says of a race without walls, by classifier and solver: its
/// score is positive exactly if the side to move can force the win, and the move
/// keeps it.
pub proof fn lemma_open_race_result_is_right(r: ThinkResult, s: AceState)
    requires
        race_result(r, s),
        open_race(race_of(s)),
        s.wl0 == 0,
        s.wl1 == 0,
    ensures
        r.score > 0 <==> can_force(s, s.turn),
        r.score < 0 <==> can_force(s, 1 - s.turn),
        r.score > 0 ==> can_force(s.after(r.mv), s.turn) && r.score >= RACE_MATE - 256,
        r.score < 0 ==> r.score <= -(RACE_MATE - 256),
        legal_in(s, r.mv),
{
    let v = choose|v: int| #[trigger]
        race_pick(s, r.mv, v) && r.score == race_score(v) && r.depth == 99 && r.nodes
            == s.pawn_cells().len() && r.depth_log@.len() == 0;
    lemma_open_pick_is_right(s, r.mv, v);
    let (vals, k) = choose|vals: Seq<Option<int>>, k: int|
        #![trigger is_first_best(vals, k)]
        are_worths(s, vals) && is_first_best(vals, k) && r.mv == s.pawn_cells()[k] && v
            == vals[k]->0;
    assert(vals[k] is Some && -256 <= vals[k]->0 <= 256);
    lemma_race_scores_in_order(v, 1);
}

/// The same of any race, as far as classifier and solver are sure: where some
/// pawn move arrives or surely wins, the score is positive and the move is one
/// that is taken to win.
pub proof fn lemma_race_result_wins_where_it_can(r: ThinkResult, s: AceState)
    requires
        race_result(r, s),
        0 <= s.turn < 2,
    ensures
        (exists|c: i16| s.pawn_cells().contains(c) && #[trigger] wins_race(s, c)) ==> r.score > 0,
        r.score > 0 ==> on_goal(s.turn, r.mv as int) || race_taken(s.after(r.mv), false),
        r.score < 0 ==> forall|c: i16| #[trigger]
            s.pawn_cells().contains(c) ==> race_taken(s.after(c), true),
        r.score != 0,
{
    let v = choose|v: int| #[trigger]
        race_pick(s, r.mv, v) && r.score == race_score(v) && r.depth == 99 && r.nodes
            == s.pawn_cells().len() && r.depth_log@.len() == 0;
    lemma_pick_wins_where_it_can(s, r.mv, v);
    let (vals, k) = choose|vals: Seq<Option<int>>, k: int|
        #![trigger is_first_best(vals, k)]
        are_worths(s, vals) && is_first_best(vals, k) && r.mv == s.pawn_cells()[k] && v
            == vals[k]->0;
    assert(vals[k] is Some && -256 <= vals[k]->0 <= 256);
    lemma_race_scores_in_order(v, 1);
}

/// What a pawn move is worth by the exact table of the walls is what the game
/// says: a move worth `v` plies wins by force within them, a move worth `-v` loses
/// by force within them.
pub proof fn lemma_table_worth_is_forced(t: Seq<i16>, s: AceState, i: int)
    requires
        s.wf(),
        s.winner_spec() == -1,
        s.wl0 == 0,
        s.wl1 == 0,
        is_race_table(t, s.h, s.v),
        0 <= i < s.pawn_cells().len(),
        table_worth(t, s, s.pawn_cells()[i]) is Some,
    ensures
        ({
            let c = s.pawn_cells()[i];
            let v = table_worth(t, s, c)->0;
            &&& v != 0
            &&& legal_in(s, c)
            &&& v > 0 ==> forced(s.after(c), s.turn, (v - 1) as nat) && forced(s, s.turn, v as nat)
            &&& v < 0 ==> forced(s.after(c), 1 - s.turn, (-v - 1) as nat)
        }),
{
    let c = s.pawn_cells()[i];
    let v = table_worth(t, s, c)->0;
    let q = race_of(s);
    let u = s.after(c);
    lemma_pawn_cells(s.h, s.v, s.pawn(s.turn), s.pawn(1 - s.turn));
    assert(s.pawn_cells().contains(c));
    if on_goal(s.turn, c as int) {
        assert(forced(u, s.turn, 0));
    } else {
        let d = race_of(u);
        assert(d == q.child(c as int));
        let y = t[state_index(d.p0, d.p1, d.turn)] as int;
        assert(d == (RaceState { h: s.h, v: s.v, p0: d.p0, p1: d.p1, turn: d.turn }));
        assert(race_value_is(d, y));
        if y < 0 {
            lemma_race_is_forced(u, (-y) as nat);
        } else {
            lemma_race_is_forced(u, y as nat);
        }
    }
    if v > 0 {
        assert(legal_in(s, c) && forced(s.after(c), s.turn, (v - 1) as nat));
    }
}

/// What the exact table says of a race is what the game says: a win by force
/// within so many plies, or a loss.
pub proof fn lemma_table_value_is_forced(t: Seq<i16>, s: AceState)
    requires
        s.wf(),
        s.winner_spec() == -1,
        s.wl0 == 0,
        s.wl1 == 0,
        is_race_table(t, s.h, s.v),
    ensures
        ({
            let x = t[state_index(s.p0, s.p1, s.turn)] as int;
            &&& x > 0 ==> forced(s, s.turn, x as nat)
            &&& x < 0 ==> forced(s, 1 - s.turn, (-x) as nat)
        }),
{
    let x = t[state_index(s.p0, s.p1, s.turn)] as int;
    let q = race_of(s);
    assert(q == (RaceState { h: s.h, v: s.v, p0: s.p0, p1: s.p1, turn: s.turn }));
    assert(race_value_is(q, x));
    if x > 0 {
        lemma_race_is_forced(s, x as nat);
    } else if x < 0 {
        lemma_race_is_forced(s, (-x) as nat);
    }
}

/// On a board without walls and with none in hand, the side that is taken to win
/// can force it, and the other cannot.
pub proof fn lemma_open_race_taken_is_forced(s: AceState, stm_wins: bool)
    requires
        open_race(race_of(s)),
        s.wl0 == 0,
        s.wl1 == 0,
        race_taken(s, stm_wins),
    ensures
        stm_wins ==> can_force(s, s.turn) && !can_force(s, 1 - s.turn),
        !stm_wins ==> can_force(s, 1 - s.turn) && !can_force(s, s.turn),
{
    lemma_open_race_known(s, stm_wins);
    lemma_open_forced(s, stm_wins);
}

/// A race that the table of its walls settles is settled rightly, where no other
/// walls have the same keys: the score is positive exactly if the side to move can
/// force the win and negative exactly if the other side can, it tells within how
/// many plies, a winning side plays a move that keeps the win, and a pawn that can
/// arrive does.
pub proof fn lemma_table_result_is_forced(r: ThinkResult, s: AceState)
    requires
        table_result(r, s),
        s.wf(),
        s.winner_spec() == -1,
        s.wl0 == 0,
        s.wl1 == 0,
        forall|h: u64, v: u64|
            wall_lo(h, v) == wall_lo(s.h, s.v) && #[trigger] wall_hi(h, v) == wall_hi(s.h, s.v)
                ==> h == s.h && v == s.v,
    ensures
        legal_in(s, r.mv),
        r.mv < 100,
        r.score > 0 <==> can_force(s, s.turn),
        r.score < 0 <==> can_force(s, 1 - s.turn),
        r.score > 0 ==> forced(s.after(r.mv), s.turn, (50_000 - r.score - 1) as nat),
        r.score > 0 ==> forced(s, s.turn, (50_000 - r.score) as nat),
        r.score < 0 ==> forced(s, 1 - s.turn, (50_000 + r.score) as nat),
        (exists|c: i16| s.pawn_cells().contains(c) && #[trigger] on_goal(s.turn, c as int))
            ==> r.score == 49_999,
{
    let (t, k, v) = choose|t: Seq<i16>, k: int, v: int|
        #![trigger is_first_best(table_worths(t, s), k), race_score(v)]
        table_for(t, wall_lo(s.h, s.v), wall_hi(s.h, s.v)) && is_first_best(table_worths(t, s), k)
            && r.mv == s.pawn_cells()[k] && table_worths(t, s)[k] == Some(v) && v != 0 && v == t[
            state_index(s.p0, s.p1, s.turn)] && keyed_race_value(s, v) && r.score == race_score(v)
            && r.depth == 99 && r.nodes == s.pawn_cells().len() && r.depth_log@.len() == 0;
    let (h, w) = choose|h: u64, w: u64| #[trigger]
        is_race_table(t, h, w) && wall_lo(h, w) == wall_lo(s.h, s.v) && wall_hi(h, w) == wall_hi(
            s.h,
            s.v,
        );
    assert(h == s.h && w == s.v);
    lemma_pawn_cells(s.h, s.v, s.pawn(s.turn), s.pawn(1 - s.turn));
    assert(s.pawn_cells().contains(r.mv));
    assert(table_worth(t, s, s.pawn_cells()[k]) == Some(v));
    lemma_table_worth_is_forced(t, s, k);
    lemma_table_value_is_forced(t, s);
    if v > 0 {
        assert(can_force(s, s.turn));
        lemma_other_cannot_force(s, s.turn);
    } else {
        assert(can_force(s, 1 - s.turn));
        lemma_other_cannot_force(s, 1 - s.turn);
    }
    if exists|c: i16| s.pawn_cells().contains(c) && #[trigger] on_goal(s.turn, c as int) {
        let c = choose|c: i16| s.pawn_cells().contains(c) && #[trigger] on_goal(s.turn, c as int);
        let i = choose|i: int| 0 <= i < s.pawn_cells().len() && s.pawn_cells()[i] == c;
        assert(table_worths(t, s)[i] == table_worth(t, s, c));
        assert(table_worth(t, s, c) == Some(1int));
        assert(race_key(1) <= race_key(v));
    }
}

} // verus!
