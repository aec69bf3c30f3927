//! Races on a board without walls, and why the two ways to judge them agree.
//!
//! With `a` rows to go for the side to move and `b` for the other, the side to
//! move is ahead by `b - a`. Two pawns that face each other in a column change
//! that by one: the pawn that gets to jump gains a row, and the number of rows
//! between them tells which one it is. Every step forward turns a lead `x` into
//! `-x - 1` for the other side, and no other move helps a side that is behind.

use vstd::prelude::*;

use crate::ace::certify::{can_force, forced, legal_in};
use crate::ace::game::{grid_player, move_cell, pawn_cells_of, AceState};
use crate::ace::race::{
    lemma_cells_on_board, lemma_child_rank, lemma_race_step, on_goal, on_shortest_path,
    paths_overlap_spec, race_of, race_settled, race_value, sound, state_index, RaceProof,
    RaceState,
};
use crate::ace::racetable::{
    is_race_table, lemma_race_lost_not_won, lemma_race_mono_far, lemma_race_one_result,
    race_lost_in, race_value_is, race_won_in,
};
use crate::movegen::rules::{
    across, lemma_pawn_moves_exact, open_from, pawn_legal, pawn_legal_dir,
    pawn_moves, pawn_to, shifted, unit, Sq,
};
use crate::path::graph::{
    dist, goal_squares, is_dist, lemma_dist_is, only, wall_steps, within,
};
use crate::position::board::Move;
use crate::util::bits::lemma_bits64;
use crate::util::grid::slot;

verus! {

/// Rows that a pawn of player `p` has to go from a row.
pub open spec fn to_go(p: int, row: int) -> int {
    if p == 0 {
        row
    } else {
        8 - row
    }
}

/// What pawns in one column gain or lose the side to move, if they face each
/// other.
pub open spec fn bump(r0: int, c0: int, r1: int, c1: int) -> int {
    if c0 == c1 && r1 < r0 {
        if (r0 - r1) % 2 == 1 {
            1
        } else {
            -1
        }
    } else {
        0
    }
}

/// By how much the side to move is ahead, with the pawns on these squares.
pub open spec fn lead_at(r0: int, c0: int, r1: int, c1: int, turn: int) -> int {
    bump(r0, c0, r1, c1) + if turn == 0 {
        to_go(1, r1) - to_go(0, r0)
    } else {
        to_go(0, r0) - to_go(1, r1)
    }
}

/// By how much the side to move is ahead.
pub open spec fn lead(s: RaceState) -> int {
    lead_at(s.p0 / 9, s.p0 % 9, s.p1 / 9, s.p1 % 9, s.turn)
}

/// A race without walls that is not over.
pub open spec fn open_race(s: RaceState) -> bool {
    &&& s.h == 0
    &&& s.v == 0
    &&& 9 <= s.p0 < 81
    &&& 0 <= s.p1 < 72
    &&& s.p0 != s.p1
    &&& 0 <= s.turn < 2
}

/// A square of the board.
spec fn on_board(a: Sq) -> bool {
    0 <= a.0 < 9 && 0 <= a.1 < 9
}

/// Moves from `f` to `t` without walls, with the opponent on `o`, in one
/// direction.
spec fn free_move(f: Sq, o: Sq, d: Sq, t: Sq) -> bool {
    let n = shifted(f, d);
    &&& unit(d)
    &&& on_board(n)
    &&& on_board(t)
    &&& {
        ||| n != o && t == n
        ||| n == o && t == shifted(n, d)
        ||| n == o && !on_board(shifted(n, d)) && exists|a: Sq| #[trigger]
            across(d, a) && t == shifted(n, a)
    }
}

/// Without walls no slot is taken.
proof fn lemma_no_slot(r: int, c: int)
    ensures
        !slot(0u64, r, c),
{
    if 0 <= r < 8 && 0 <= c < 8 {
        lemma_bits64(0, 0, r * 8 + c);
    }
}

/// Without walls a step is open if it stays on the board.
proof fn lemma_free_step(a: Sq, d: Sq)
    requires
        on_board(a),
        unit(d),
    ensures
        open_from(0, 0, a, d) == on_board(shifted(a, d)),
{
    lemma_no_slot(a.0, a.1);
    lemma_no_slot(a.0 - 1, a.1);
    lemma_no_slot(a.0, a.1 - 1);
    lemma_no_slot(a.0 - 1, a.1 - 1);
}

/// Without walls a square is as many steps from the goal row as rows.
proof fn lemma_within_rows(p: int, c: int, n: nat)
    requires
        0 <= c < 81,
        0 <= p < 2,
    ensures
        within(wall_steps(0, 0), goal_squares(grid_player(p)), c, n) == (to_go(p, c / 9) <= n),
    decreases n,
{
    let st = wall_steps(0, 0);
    let g = goal_squares(grid_player(p));
    if n > 0 {
        let m = (n - 1) as nat;
        let sq: Sq = (c / 9, c % 9);
        lemma_within_rows(p, c, m);
        if c + 9 < 81 {
            lemma_within_rows(p, c + 9, m);
            lemma_free_step(((c + 9) / 9, (c + 9) % 9), (-1, 0));
        }
        if c - 9 >= 0 {
            lemma_within_rows(p, c - 9, m);
            lemma_free_step(((c - 9) / 9, (c - 9) % 9), (1, 0));
        }
        if c + 1 < 81 {
            lemma_within_rows(p, c + 1, m);
            lemma_free_step(((c + 1) / 9, (c + 1) % 9), (0, -1));
        }
        if c - 1 >= 0 {
            lemma_within_rows(p, c - 1, m);
            lemma_free_step(((c - 1) / 9, (c - 1) % 9), (0, 1));
        }
    }
}

/// The distance of a square from a goal row without walls.
pub proof fn lemma_rows_to_go(p: int, c: int)
    requires
        0 <= c < 81,
        0 <= p < 2,
    ensures
        dist(wall_steps(0, 0), goal_squares(grid_player(p)), c) == to_go(p, c / 9),
{
    let n = to_go(p, c / 9) as nat;
    let st = wall_steps(0, 0);
    let g = goal_squares(grid_player(p));
    lemma_within_rows(p, c, n);
    if n > 0 {
        lemma_within_rows(p, c, (n - 1) as nat);
    }
    assert(is_dist(st, g, c, n));
    lemma_dist_is(st, g, c, n);
}

/// Without walls a square is no nearer than its rows.
proof fn lemma_rows_apart(x: int, c: int, n: nat)
    requires
        0 <= c < 81,
        0 <= x < 81,
        within(wall_steps(0, 0), only(x), c, n),
    ensures
        x / 9 - n <= c / 9 <= x / 9 + n,
    decreases n,
{
    let st = wall_steps(0, 0);
    if n > 0 {
        let m = (n - 1) as nat;
        if within(st, only(x), c, m) {
            lemma_rows_apart(x, c, m);
        } else if st(c + 9, 0) && within(st, only(x), c + 9, m) {
            lemma_rows_apart(x, c + 9, m);
        } else if st(c - 9, 1) && within(st, only(x), c - 9, m) {
            lemma_rows_apart(x, c - 9, m);
        } else if st(c + 1, 2) && within(st, only(x), c + 1, m) {
            lemma_rows_apart(x, c + 1, m);
        } else {
            lemma_rows_apart(x, c - 1, m);
        }
    }
}

/// Down a column without walls it takes as many steps as rows.
proof fn lemma_down_column(x: int, n: nat)
    requires
        0 <= x,
        x + 9 * n < 81,
    ensures
        within(wall_steps(0, 0), only(x), x + 9 * n, n),
    decreases n,
{
    if n > 0 {
        let c = x + 9 * n;
        lemma_down_column(x, (n - 1) as nat);
        assert(c - 9 == x + 9 * (n - 1));
        lemma_free_step(((c - 9) / 9, (c - 9) % 9), (1, 0));
        assert(wall_steps(0, 0)(c - 9, 1));
    }
}

proof fn lemma_steps_down(x: int, c: int)
    requires
        0 <= x <= c < 81,
        x % 9 == c % 9,
    ensures
        dist(wall_steps(0, 0), only(x), c) == c / 9 - x / 9,
{
    let n = (c / 9 - x / 9) as nat;
    assert(c == x + 9 * n);
    lemma_down_column(x, n);
    if n > 0 && within(wall_steps(0, 0), only(x), c, (n - 1) as nat) {
        lemma_rows_apart(x, c, (n - 1) as nat);
    }
    assert(is_dist(wall_steps(0, 0), only(x), c, n));
    lemma_dist_is(wall_steps(0, 0), only(x), c, n);
}

/// A legal pawn move without walls.
proof fn lemma_legal_is_free(f: Sq, o: Sq, mv: Move) -> (r: (Sq, Sq))
    requires
        on_board(f),
        on_board(o),
        pawn_legal(0, 0, f, o, mv),
    ensures
        free_move(f, o, r.0, r.1),
        mv == pawn_to(r.1),
{
    let d = choose|d: Sq| #[trigger] unit(d) && pawn_legal_dir(0, 0, f, o, d, mv);
    let n = shifted(f, d);
    lemma_free_step(f, d);
    if n != o {
        (d, n)
    } else {
        lemma_free_step(n, d);
        if on_board(shifted(n, d)) {
            (d, shifted(n, d))
        } else {
            let a = choose|a: Sq| #[trigger]
                across(d, a) && open_from(0, 0, n, a) && mv == pawn_to(shifted(n, a));
            lemma_free_step(n, a);
            (d, shifted(n, a))
        }
    }
}

/// The squares that a pawn can move to without walls.
#[verifier::rlimit(40)]
proof fn lemma_free_cells(from: int, opp: int, i: int)
    requires
        0 <= from < 81,
        0 <= opp < 81,
        0 <= i < pawn_cells_of(0, 0, from, opp).len(),
    ensures
        ({
            let c = pawn_cells_of(0, 0, from, opp)[i] as int;
            &&& 0 <= c < 81
            &&& exists|d: Sq| #[trigger]
                free_move((from / 9, from % 9), (opp / 9, opp % 9), d, (c / 9, c % 9))
        }),
{
    let f: Sq = (from / 9, from % 9);
    let o: Sq = (opp / 9, opp % 9);
    let list = pawn_moves(0, 0, f, o);
    let mv = list[i];
    let c = pawn_cells_of(0, 0, from, opp)[i] as int;
    assert(i < list.len() && c == move_cell(mv)) by {
        reveal(pawn_cells_of);
    }
    lemma_pawn_moves_exact(0, 0, f, o, mv);
    assert(list.contains(mv));
    let (d, t) = lemma_legal_is_free(f, o, mv);
    assert(c == t.0 * 9 + t.1);
    assert(t == (c / 9, c % 9));
}

/// A square that a pawn can move to without walls is among its cells.
#[verifier::rlimit(40)]
proof fn lemma_free_cell_listed(from: int, opp: int, d: Sq, c: int) -> (i: int)
    requires
        0 <= from < 81,
        0 <= opp < 81,
        0 <= c < 81,
        free_move((from / 9, from % 9), (opp / 9, opp % 9), d, (c / 9, c % 9)),
    ensures
        0 <= i < pawn_cells_of(0, 0, from, opp).len(),
        pawn_cells_of(0, 0, from, opp)[i] == c,
{
    reveal(pawn_cells_of);
    let f: Sq = (from / 9, from % 9);
    let o: Sq = (opp / 9, opp % 9);
    let t: Sq = (c / 9, c % 9);
    let n = shifted(f, d);
    let mv = pawn_to(t);
    lemma_free_step(f, d);
    if n == o {
        lemma_free_step(n, d);
        if t != shifted(n, d) {
            let a = choose|a: Sq| #[trigger] across(d, a) && t == shifted(n, a);
            lemma_free_step(n, a);
            assert(across(d, a) && open_from(0, 0, n, a) && mv == pawn_to(shifted(n, a)));
        }
    }
    assert(pawn_legal_dir(0, 0, f, o, d, mv));
    assert(unit(d) && pawn_legal_dir(0, 0, f, o, d, mv));
    lemma_pawn_moves_exact(0, 0, f, o, mv);
    let list = pawn_moves(0, 0, f, o);
    let i = choose|i: int| 0 <= i < list.len() && list[i] == mv;
    assert(move_cell(mv) == c);
    i
}

/// A side that is behind stays so, whatever it plays, and does not arrive.
proof fn lemma_behind(r0: int, c0: int, r1: int, c1: int, turn: int, d: Sq, t: Sq)
    requires
        1 <= r0 < 9,
        0 <= r1 < 8,
        0 <= c0 < 9,
        0 <= c1 < 9,
        (r0, c0) != (r1, c1),
        0 <= turn < 2,
        lead_at(r0, c0, r1, c1, turn) < 0,
        turn == 0 ==> free_move((r0, c0), (r1, c1), d, t),
        turn == 1 ==> free_move((r1, c1), (r0, c0), d, t),
    ensures
        turn == 0 ==> t.0 > 0 && t != (r1, c1) && lead_at(t.0, t.1, r1, c1, 1) >= 0,
        turn == 1 ==> t.0 < 8 && t != (r0, c0) && lead_at(r0, c0, t.0, t.1, 0) >= 0,
{
}

/// The square that a pawn goes forward to: one step, or over the opponent.
spec fn ahead(f: Sq, o: Sq, dir: int) -> Sq {
    let n = (f.0 + dir, f.1);
    if n != o {
        n
    } else if 0 <= n.0 + dir < 9 {
        (n.0 + dir, n.1)
    } else if n.1 > 0 {
        (n.0, n.1 - 1)
    } else {
        (n.0, n.1 + 1)
    }
}

/// A step forward arrives, or turns a lead `x` into `-x - 1`.
proof fn lemma_forward(r0: int, c0: int, r1: int, c1: int, turn: int) -> (r: (Sq, Sq))
    requires
        1 <= r0 < 9,
        0 <= r1 < 8,
        0 <= c0 < 9,
        0 <= c1 < 9,
        (r0, c0) != (r1, c1),
        0 <= turn < 2,
    ensures
        turn == 0 ==> free_move((r0, c0), (r1, c1), r.0, r.1) && r.1.0 < r0 && r.1 != (r1, c1) && (
        r.1.0 == 0 || lead_at(r.1.0, r.1.1, r1, c1, 1) == -lead_at(r0, c0, r1, c1, 0) - 1),
        turn == 1 ==> free_move((r1, c1), (r0, c0), r.0, r.1) && r.1.0 > r1 && r.1 != (r0, c0) && (
        r.1.0 == 8 || lead_at(r0, c0, r.1.0, r.1.1, 0) == -lead_at(r0, c0, r1, c1, 1) - 1),
{
    let dir: int = if turn == 0 {
        -1
    } else {
        1
    };
    let f: Sq = if turn == 0 {
        (r0, c0)
    } else {
        (r1, c1)
    };
    let o: Sq = if turn == 0 {
        (r1, c1)
    } else {
        (r0, c0)
    };
    let d: Sq = (dir, 0);
    let t = ahead(f, o, dir);
    let n = shifted(f, d);
    assert(unit(d));
    if n == o && !on_board(shifted(n, d)) {
        let e: Sq = if n.1 > 0 {
            (0, -1)
        } else {
            (0, 1)
        };
        assert(across(d, e) && t == shifted(n, e));
    }
    (d, t)
}

/// The squares of a race as rows and columns.
proof fn lemma_race_squares(s: RaceState)
    requires
        open_race(s),
    ensures
        1 <= s.p0 / 9 < 9,
        0 <= s.p1 / 9 < 8,
        (s.p0 / 9, s.p0 % 9) != (s.p1 / 9, s.p1 % 9),
{
}

/// Every move of a side that is behind leads to a race in which the other side
/// is not.
pub proof fn lemma_race_behind(s: RaceState, i: int)
    requires
        open_race(s),
        lead(s) < 0,
        0 <= i < s.cells().len(),
    ensures
        ({
            let c = s.cells()[i] as int;
            !on_goal(s.turn, c) && open_race(s.child(c)) && lead(s.child(c)) >= 0
        }),
{
    let from = s.pawn(s.turn);
    let opp = s.pawn(1 - s.turn);
    lemma_race_squares(s);
    lemma_free_cells(from, opp, i);
    let c = s.cells()[i] as int;
    let d = choose|d: Sq| #[trigger]
        free_move((from / 9, from % 9), (opp / 9, opp % 9), d, (c / 9, c % 9));
    lemma_behind(s.p0 / 9, s.p0 % 9, s.p1 / 9, s.p1 % 9, s.turn, d, (c / 9, c % 9));
}

/// Some move forward arrives, or turns the lead round.
pub proof fn lemma_race_forward(s: RaceState) -> (i: int)
    requires
        open_race(s),
    ensures
        0 <= i < s.cells().len(),
        ({
            let c = s.cells()[i] as int;
            &&& 0 <= c < 81
            &&& to_go(s.turn, c / 9) < to_go(s.turn, s.pawn(s.turn) / 9)
            &&& s.closer(c)
            &&& on_goal(s.turn, c) || (open_race(s.child(c)) && lead(s.child(c)) == -lead(s) - 1)
        }),
{
    let from = s.pawn(s.turn);
    let opp = s.pawn(1 - s.turn);
    lemma_race_squares(s);
    let (d, t) = lemma_forward(s.p0 / 9, s.p0 % 9, s.p1 / 9, s.p1 % 9, s.turn);
    let c = t.0 * 9 + t.1;
    assert(t == (c / 9, c % 9));
    let i = lemma_free_cell_listed(from, opp, d, c);
    lemma_rows_to_go(s.turn, c);
    lemma_rows_to_go(s.turn, from);
    i
}

/// Without walls the side to move wins the restricted race if and only if it is
/// not behind.
pub proof fn lemma_open_race_value(s: RaceState)
    requires
        open_race(s),
    ensures
        race_value(s) == (lead(s) >= 0),
    decreases s.rank(),
{
    lemma_race_step(s);
    lemma_cells_on_board(s);
    if lead(s) >= 0 {
        let i = lemma_race_forward(s);
        let c = s.cells()[i] as int;
        if !on_goal(s.turn, c) {
            lemma_child_rank(s, c);
            lemma_open_race_value(s.child(c));
        }
    } else {
        assert forall|i: int|
            0 <= i < s.cells().len() && s.closer(#[trigger] s.cells()[i] as int) implies !on_goal(
            s.turn,
            s.cells()[i] as int,
        ) && race_value(s.child(s.cells()[i] as int)) by {
            let c = s.cells()[i] as int;
            lemma_race_behind(s, i);
            lemma_child_rank(s, c);
            lemma_open_race_value(s.child(c));
        }
    }
}

/// Without walls a side to move that is not behind forces its arrival.
proof fn lemma_open_won(s: RaceState)
    requires
        open_race(s),
        lead(s) >= 0,
    ensures
        race_won_in(s, (2 * to_go(s.turn, s.pawn(s.turn) / 9) - 1) as nat),
    decreases to_go(s.turn, s.pawn(s.turn) / 9), 0nat,
{
    let a = to_go(s.turn, s.pawn(s.turn) / 9);
    let n = (2 * a - 1) as nat;
    lemma_race_squares(s);
    let i = lemma_race_forward(s);
    let c = s.cells()[i] as int;
    if !on_goal(s.turn, c) {
        let t = s.child(c);
        let b = to_go(s.turn, c / 9);
        lemma_open_lost(t);
        lemma_race_mono_far(t, (2 * b) as nat, (n - 1) as nat);
        assert(race_lost_in(s.child(s.cells()[i] as int), (n - 1) as nat));
    }
}

/// Without walls a side to move that is behind cannot keep the other from
/// arriving.
proof fn lemma_open_lost(s: RaceState)
    requires
        open_race(s),
        lead(s) < 0,
    ensures
        race_lost_in(s, (2 * to_go(1 - s.turn, s.pawn(1 - s.turn) / 9)) as nat),
    decreases to_go(1 - s.turn, s.pawn(1 - s.turn) / 9), 1nat,
{
    let n = (2 * to_go(1 - s.turn, s.pawn(1 - s.turn) / 9)) as nat;
    lemma_race_squares(s);
    let first = lemma_race_forward(s);
    assert forall|i: int| 0 <= i < s.cells().len() implies !on_goal(
        s.turn,
        #[trigger] s.cells()[i] as int,
    ) && race_won_in(s.child(s.cells()[i] as int), (n - 1) as nat) by {
        let c = s.cells()[i] as int;
        lemma_race_behind(s, i);
        lemma_open_won(s.child(c));
    }
}

/// Without walls the exact value of a race is a win for a side to move that is
/// not behind, and a loss for one that is.
pub proof fn lemma_open_race_exact(s: RaceState, x: int)
    requires
        open_race(s),
        race_value_is(s, x),
    ensures
        x > 0 <==> lead(s) >= 0,
        x < 0 <==> lead(s) < 0,
{
    if lead(s) >= 0 {
        let n = (2 * to_go(s.turn, s.pawn(s.turn) / 9) - 1) as nat;
        lemma_open_won(s);
        if x < 0 {
            lemma_race_one_result(s, n, (-x) as nat);
        }
    } else {
        let n = (2 * to_go(1 - s.turn, s.pawn(1 - s.turn) / 9)) as nat;
        lemma_open_lost(s);
        if x == 0 {
            assert(forall|k: nat| !(#[trigger] race_won_in(s, k)) && !race_lost_in(s, k));
            assert(!race_won_in(s, n));
            assert(!race_lost_in(s, n));
        }
        if x > 0 {
            lemma_race_lost_not_won(s, n, x as nat);
        }
    }
}

/// What classifier and solver say of a race without walls is who is behind.
pub proof fn lemma_open_race_settled(s: AceState, stm_wins: bool)
    requires
        open_race(race_of(s)),
        race_settled(s, stm_wins),
    ensures
        stm_wins == (lead(race_of(s)) >= 0),
{
    lemma_rows_to_go(0, s.p0);
    lemma_rows_to_go(1, s.p1);
    lemma_race_squares(race_of(s));
    lemma_open_race_value(race_of(s));
    if s.p0 % 9 == s.p1 % 9 && s.p1 < s.p0 {
        lemma_steps_down(s.p0, s.p0);
        lemma_steps_down(s.p1, s.p0);
        lemma_rows_to_go(1, s.p0);
        assert(on_shortest_path(s, 0, s.p0));
        assert(on_shortest_path(s, 1, s.p0));
        assert(paths_overlap_spec(s));
    }
}

/// Classifier and solver never contradict the exact table of the race: without
/// walls, what they call a win the table holds as a win, and what they call a
/// loss as a loss.
pub proof fn lemma_resolver_agrees_with_table(s: AceState, t: Seq<i16>, stm_wins: bool)
    requires
        s.h == 0,
        s.v == 0,
        9 <= s.p0 < 81,
        0 <= s.p1 < 72,
        s.p0 != s.p1,
        0 <= s.turn < 2,
        is_race_table(t, 0, 0),
        race_settled(s, stm_wins),
    ensures
        stm_wins ==> t[state_index(s.p0, s.p1, s.turn)] > 0,
        !stm_wins ==> t[state_index(s.p0, s.p1, s.turn)] < 0,
{
    let x = t[state_index(s.p0, s.p1, s.turn)] as int;
    assert(race_of(s) == (RaceState { h: 0, v: 0, p0: s.p0, p1: s.p1, turn: s.turn }));
    assert(race_value_is(race_of(s), x));
    lemma_open_race_settled(s, stm_wins);
    lemma_open_race_exact(race_of(s), x);
}

/// A race that is won in the table's sense is a forced win of the game without
/// walls in hand, and one that is lost a forced win of the other side.
pub proof fn lemma_race_is_forced(s: AceState, n: nat)
    requires
        s.winner_spec() == -1,
        s.wl0 == 0,
        s.wl1 == 0,
        0 <= s.turn < 2,
        0 <= s.p0 < 81,
        0 <= s.p1 < 81,
    ensures
        race_won_in(race_of(s), n) ==> forced(s, s.turn, n),
        race_lost_in(race_of(s), n) ==> forced(s, 1 - s.turn, n),
    decreases n,
{
    let q = race_of(s);
    lemma_cells_on_board(q);
    assert(q.cells() == s.pawn_cells());
    if race_won_in(q, n) {
        let i = choose|i: int|
            0 <= i < q.cells().len() && (on_goal(q.turn, #[trigger] q.cells()[i] as int)
                || race_lost_in(q.child(q.cells()[i] as int), (n - 1) as nat));
        let m = q.cells()[i];
        let t = s.after(m);
        assert(race_of(t) == q.child(m as int));
        assert(s.pawn_cells().contains(m));
        assert(legal_in(s, m));
        if !on_goal(s.turn, m as int) {
            lemma_race_is_forced(t, (n - 1) as nat);
        }
        assert(forced(t, s.turn, (n - 1) as nat));
    }
    if race_lost_in(q, n) {
        assert forall|m: i16| #[trigger] legal_in(s, m) implies forced(
            s.after(m),
            1 - s.turn,
            (n - 1) as nat,
        ) by {
            let i = choose|i: int| 0 <= i < s.pawn_cells().len() && s.pawn_cells()[i] == m;
            assert(q.cells()[i] == m);
            assert(race_of(s.after(m)) == q.child(m as int));
            lemma_race_is_forced(s.after(m), (n - 1) as nat);
        }
        let first = q.cells()[0];
        assert(s.pawn_cells().contains(first));
        assert(legal_in(s, first));
    }
}

/// Without walls on the board and in hand, the side that classifier and solver
/// name can force the win.
pub proof fn lemma_settled_race_is_forced(s: AceState, stm_wins: bool)
    requires
        open_race(race_of(s)),
        s.wl0 == 0,
        s.wl1 == 0,
        race_settled(s, stm_wins),
    ensures
        can_force(
            s,
            if stm_wins {
                s.turn
            } else {
                1 - s.turn
            },
        ),
{
    let q = race_of(s);
    lemma_open_race_settled(s, stm_wins);
    if stm_wins {
        let n = (2 * to_go(q.turn, q.pawn(q.turn) / 9) - 1) as nat;
        lemma_open_won(q);
        lemma_race_is_forced(s, n);
        assert(forced(s, s.turn, n));
    } else {
        let n = (2 * to_go(1 - q.turn, q.pawn(1 - q.turn) / 9)) as nat;
        lemma_open_lost(q);
        lemma_race_is_forced(s, n);
        assert(forced(s, 1 - s.turn, n));
    }
}

/// The solver gives no false certificate: without walls, a win that it claims is
/// a win in the exact table, and a loss a loss.
pub proof fn lemma_solver_agrees_with_table(s: AceState, t: Seq<i16>, r: RaceProof)
    requires
        s.h == 0,
        s.v == 0,
        9 <= s.p0 < 81,
        0 <= s.p1 < 72,
        s.p0 != s.p1,
        0 <= s.turn < 2,
        is_race_table(t, 0, 0),
        sound(r, race_of(s)),
    ensures
        r == RaceProof::Win ==> t[state_index(s.p0, s.p1, s.turn)] > 0,
        r == RaceProof::Loss ==> t[state_index(s.p0, s.p1, s.turn)] < 0,
{
    let x = t[state_index(s.p0, s.p1, s.turn)] as int;
    assert(race_of(s) == (RaceState { h: 0, v: 0, p0: s.p0, p1: s.p1, turn: s.turn }));
    assert(race_value_is(race_of(s), x));
    lemma_open_race_value(race_of(s));
    lemma_open_race_exact(race_of(s), x);
}

/// Who is not behind in a race without walls on the board and in hand can force
/// the win.
pub proof fn lemma_lead_forces(s: AceState)
    requires
        open_race(race_of(s)),
        s.wl0 == 0,
        s.wl1 == 0,
    ensures
        can_force(
            s,
            if lead(race_of(s)) >= 0 {
                s.turn
            } else {
                1 - s.turn
            },
        ),
{
    let q = race_of(s);
    if lead(q) >= 0 {
        let n = (2 * to_go(q.turn, q.pawn(q.turn) / 9) - 1) as nat;
        lemma_race_squares(q);
        lemma_open_won(q);
        lemma_race_is_forced(s, n);
        assert(forced(s, s.turn, n));
    } else {
        let n = (2 * to_go(1 - q.turn, q.pawn(1 - q.turn) / 9)) as nat;
        lemma_race_squares(q);
        lemma_open_lost(q);
        lemma_race_is_forced(s, n);
        assert(forced(s, 1 - s.turn, n));
    }
}

/// A pawn move of a race without walls that does not arrive leads to another one.
pub proof fn lemma_cell_is_free(s: RaceState, i: int)
    requires
        open_race(s),
        0 <= i < s.cells().len(),
        !on_goal(s.turn, s.cells()[i] as int),
    ensures
        open_race(s.child(s.cells()[i] as int)),
{
    let from = s.pawn(s.turn);
    let opp = s.pawn(1 - s.turn);
    lemma_race_squares(s);
    lemma_free_cells(from, opp, i);
    let c = s.cells()[i] as int;
    let d = choose|d: Sq| #[trigger]
        free_move((from / 9, from % 9), (opp / 9, opp % 9), d, (c / 9, c % 9));
    assert((c / 9, c % 9) != (opp / 9, opp % 9));
}

} // verus!
