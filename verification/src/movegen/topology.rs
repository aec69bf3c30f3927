//! A wall held at fewer than two of its three points closes nothing off.
//!
//! Around a free end of the wall runs a detour of a few open steps, so every
//! step that the wall takes away can be replaced.

use vstd::prelude::*;

use crate::movegen::rules::{anchored, collides, keeps_paths, touches_a, touches_b, touches_middle};
use crate::path::graph::{
    back, board_steps, both_have_paths, dir_col, dir_row, dist, goal_squares, lemma_dist_reach,
    lemma_wall_steps_stay, lemma_within_mono, lemma_wall_steps_symmetric, pawn_sq, reach, toward, wall_steps, within, Squares, StepRel,
};
use crate::position::board::{Board, Player, WallOrientation};
use crate::util::grid::{h_gap, lemma_with_slot, open_step, slot, v_gap, with_slot};

verus! {

/// One more step.
proof fn lemma_extend(step: StepRel, src: Squares, sq: int, d: int)
    requires
        reach(step, src, sq),
        step(sq, d),
        0 <= d < 4,
    ensures
        reach(step, src, toward(sq, d)),
{
    let n = choose|n: nat| within(step, src, sq, n);
    let t = toward(sq, d);
    assert((n + 1 - 1) as nat == n);
    if d == 0 {
        assert(t + 9 == sq);
    } else if d == 1 {
        assert(t - 9 == sq);
    } else if d == 2 {
        assert(t + 1 == sq);
    } else {
        assert(t - 1 == sq);
    }
    assert(within(step, src, t, n + 1));
}

/// Squares joined by an open step are reached together.
pub proof fn lemma_link(h: u64, v: u64, src: Squares, r: int, c: int, d: int)
    requires
        0 <= d < 4,
        0 <= r < 9,
        0 <= c < 9,
        open_step(h, v, r, c, dir_row(d), dir_col(d)),
    ensures
        reach(wall_steps(h, v), src, r * 9 + c) == reach(
            wall_steps(h, v),
            src,
            (r + dir_row(d)) * 9 + c + dir_col(d),
        ),
{
    let sq = r * 9 + c;
    let step = wall_steps(h, v);
    assert(sq / 9 == r && sq % 9 == c);
    assert(step(sq, d));
    lemma_wall_steps_symmetric(h, v, sq, d);
    let t = toward(sq, d);
    assert(t == (r + dir_row(d)) * 9 + c + dir_col(d));
    if reach(step, src, sq) {
        lemma_extend(step, src, sq, d);
    }
    if reach(step, src, t) {
        lemma_extend(step, src, t, back(d));
    }
}

/// The slots that can matter near `(r, c)`, after the wall has gone up.
proof fn lemma_near(m: u64, r: int, c: int)
    requires
        0 <= r < 8,
        0 <= c < 8,
    ensures
        forall|r2: int, c2: int| #[trigger]
            slot(with_slot(m, r, c, true), r2, c2) == ((r2 == r && c2 == c) || slot(m, r2, c2)),
{
    assert forall|r2: int, c2: int| #[trigger] slot(with_slot(m, r, c, true), r2, c2) == ((r2 == r
        && c2 == c) || slot(m, r2, c2)) by {
        lemma_with_slot(m, r, c, true, r2, c2);
    }
}

/// The squares on the two sides of a new horizontal wall are reached together.
proof fn lemma_detour_h(b: Board, r: int, c: int, src: Squares)
    requires
        0 <= r < 8,
        0 <= c < 8,
        !collides(b, r, c, WallOrientation::Horizontal),
        !anchored(b, r, c, WallOrientation::Horizontal),
    ensures
        ({
            let step = wall_steps(
                with_slot(b.horizontal_walls, r, c, true),
                b.vertical_walls,
            );
            &&& reach(step, src, r * 9 + c) == reach(step, src, (r + 1) * 9 + c)
            &&& reach(step, src, r * 9 + c + 1) == reach(step, src, (r + 1) * 9 + c + 1)
        }),
{
    let o = WallOrientation::Horizontal;
    let h = with_slot(b.horizontal_walls, r, c, true);
    let v = b.vertical_walls;
    lemma_near(b.horizontal_walls, r, c);
    let a = touches_a(b, r, c, o);
    let z = touches_b(b, r, c, o);
    let m = touches_middle(b, r, c, o);
    if !a {
        // round the low end
        assert(v_gap(v, r, c - 1) && v_gap(v, r + 1, c - 1) && h_gap(h, r, c - 1));
        lemma_link(h, v, src, r, c, 2);
        lemma_link(h, v, src, r, c - 1, 1);
        lemma_link(h, v, src, r + 1, c - 1, 3);
    }
    if !z {
        // round the high end
        assert(v_gap(v, r, c + 1) && v_gap(v, r + 1, c + 1) && h_gap(h, r, c + 2));
        lemma_link(h, v, src, r, c + 1, 3);
        lemma_link(h, v, src, r, c + 2, 1);
        lemma_link(h, v, src, r + 1, c + 2, 2);
    }
    if !m {
        // along the wall
        assert(v_gap(v, r, c) && v_gap(v, r + 1, c));
        lemma_link(h, v, src, r, c, 3);
        lemma_link(h, v, src, r + 1, c, 3);
    }
}

/// The squares on the two sides of a new vertical wall are reached together.
proof fn lemma_detour_v(b: Board, r: int, c: int, src: Squares)
    requires
        0 <= r < 8,
        0 <= c < 8,
        !collides(b, r, c, WallOrientation::Vertical),
        !anchored(b, r, c, WallOrientation::Vertical),
    ensures
        ({
            let step = wall_steps(
                b.horizontal_walls,
                with_slot(b.vertical_walls, r, c, true),
            );
            &&& reach(step, src, r * 9 + c) == reach(step, src, r * 9 + c + 1)
            &&& reach(step, src, (r + 1) * 9 + c) == reach(step, src, (r + 1) * 9 + c + 1)
        }),
{
    let o = WallOrientation::Vertical;
    let h = b.horizontal_walls;
    let v = with_slot(b.vertical_walls, r, c, true);
    lemma_near(b.vertical_walls, r, c);
    let a = touches_a(b, r, c, o);
    let z = touches_b(b, r, c, o);
    let m = touches_middle(b, r, c, o);
    if !a {
        // round the high end
        assert(h_gap(h, r + 1, c) && h_gap(h, r + 1, c + 1) && v_gap(v, r + 2, c));
        lemma_link(h, v, src, r + 1, c, 1);
        lemma_link(h, v, src, r + 2, c, 3);
        lemma_link(h, v, src, r + 2, c + 1, 0);
    }
    if !z {
        // round the low end
        assert(h_gap(h, r - 1, c) && h_gap(h, r - 1, c + 1) && v_gap(v, r - 1, c));
        lemma_link(h, v, src, r, c, 0);
        lemma_link(h, v, src, r - 1, c, 3);
        lemma_link(h, v, src, r - 1, c + 1, 1);
    }
    if !m {
        // along the wall
        assert(h_gap(h, r, c) && h_gap(h, r, c + 1));
        lemma_link(h, v, src, r, c, 1);
        lemma_link(h, v, src, r, c + 1, 1);
    }
}

/// A step of the old board can be replaced on the new one.
proof fn lemma_step_replaced(
    b: Board,
    r: int,
    c: int,
    orientation: WallOrientation,
    src: Squares,
    sq: int,
    d: int,
)
    requires
        0 <= r < 8,
        0 <= c < 8,
        !collides(b, r, c, orientation),
        !anchored(b, r, c, orientation),
        board_steps(b)(sq, d),
        reach(board_steps(b.with_wall(r, c, orientation, true)), src, sq),
    ensures
        reach(board_steps(b.with_wall(r, c, orientation, true)), src, toward(sq, d)),
{
    let b2 = b.with_wall(r, c, orientation, true);
    let step = board_steps(b2);
    lemma_wall_steps_stay(b.horizontal_walls, b.vertical_walls, sq, d);
    let row = sq / 9;
    let col = sq % 9;
    assert(sq == row * 9 + col);
    if step(sq, d) {
        lemma_extend(step, src, sq, d);
    } else {
        match orientation {
            WallOrientation::Horizontal => {
                lemma_near(b.horizontal_walls, r, c);
                lemma_detour_h(b, r, c, src);
            },
            WallOrientation::Vertical => {
                lemma_near(b.vertical_walls, r, c);
                lemma_detour_v(b, r, c, src);
            },
        }
    }
}

proof fn lemma_reach_kept(
    b: Board,
    r: int,
    c: int,
    orientation: WallOrientation,
    src: Squares,
    sq: int,
    n: nat,
)
    requires
        0 <= r < 8,
        0 <= c < 8,
        !collides(b, r, c, orientation),
        !anchored(b, r, c, orientation),
        within(board_steps(b), src, sq, n),
    ensures
        reach(board_steps(b.with_wall(r, c, orientation, true)), src, sq),
    decreases n,
{
    let step = board_steps(b);
    let step2 = board_steps(b.with_wall(r, c, orientation, true));
    if n == 0 {
        assert(within(step2, src, sq, 0));
    } else {
        let m = (n - 1) as nat;
        if within(step, src, sq, m) {
            lemma_reach_kept(b, r, c, orientation, src, sq, m);
        } else if step(sq + 9, 0) && within(step, src, sq + 9, m) {
            lemma_reach_kept(b, r, c, orientation, src, sq + 9, m);
            lemma_step_replaced(b, r, c, orientation, src, sq + 9, 0);
        } else if step(sq - 9, 1) && within(step, src, sq - 9, m) {
            lemma_reach_kept(b, r, c, orientation, src, sq - 9, m);
            lemma_step_replaced(b, r, c, orientation, src, sq - 9, 1);
        } else if step(sq + 1, 2) && within(step, src, sq + 1, m) {
            lemma_reach_kept(b, r, c, orientation, src, sq + 1, m);
            lemma_step_replaced(b, r, c, orientation, src, sq + 1, 2);
        } else {
            lemma_reach_kept(b, r, c, orientation, src, sq - 1, m);
            lemma_step_replaced(b, r, c, orientation, src, sq - 1, 3);
        }
    }
}

/// A wall that collides with nothing and is held at fewer than two of its
/// three points leaves both players their ways, so it needs no path test.
pub proof fn lemma_loose_wall_keeps_paths(b: Board, r: int, c: int, orientation: WallOrientation)
    requires
        0 <= r < 8,
        0 <= c < 8,
        !collides(b, r, c, orientation),
        !anchored(b, r, c, orientation),
        both_have_paths(b),
    ensures
        keeps_paths(b, r, c, orientation),
{
    let s1 = goal_squares(Player::One);
    let s2 = goal_squares(Player::Two);
    let q1 = pawn_sq(b, Player::One);
    let q2 = pawn_sq(b, Player::Two);
    let n1 = choose|n: nat| within(board_steps(b), s1, q1, n);
    let n2 = choose|n: nat| within(board_steps(b), s2, q2, n);
    lemma_reach_kept(b, r, c, orientation, s1, q1, n1);
    lemma_reach_kept(b, r, c, orientation, s2, q2, n2);
}

/// Steps only disappear when a wall goes up.
proof fn lemma_fewer_steps(b: Board, r: int, c: int, orientation: WallOrientation, src: Squares, n: nat)
    requires
        0 <= r < 8,
        0 <= c < 8,
    ensures
        forall|sq: int| #[trigger]
            within(board_steps(b.with_wall(r, c, orientation, true)), src, sq, n) ==> within(
                board_steps(b),
                src,
                sq,
                n,
            ),
    decreases n,
{
    let step = board_steps(b);
    let step2 = board_steps(b.with_wall(r, c, orientation, true));
    if n > 0 {
        let m = (n - 1) as nat;
        lemma_fewer_steps(b, r, c, orientation, src, m);
        lemma_near(b.horizontal_walls, r, c);
        lemma_near(b.vertical_walls, r, c);
        assert forall|sq: int, d: int| #[trigger] step2(sq, d) implies step(sq, d) by {}
        assert forall|sq: int| #[trigger] within(step2, src, sq, n) implies within(
            step,
            src,
            sq,
            n,
        ) by {
            assert(within(step2, src, sq, m) ==> within(step, src, sq, m));
            assert(within(step2, src, sq + 9, m) ==> within(step, src, sq + 9, m));
            assert(within(step2, src, sq - 9, m) ==> within(step, src, sq - 9, m));
            assert(within(step2, src, sq + 1, m) ==> within(step, src, sq + 1, m));
            assert(within(step2, src, sq - 1, m) ==> within(step, src, sq - 1, m));
            assert(step2(sq + 9, 0) ==> step(sq + 9, 0));
            assert(step2(sq - 9, 1) ==> step(sq - 9, 1));
            assert(step2(sq + 1, 2) ==> step(sq + 1, 2));
            assert(step2(sq - 1, 3) ==> step(sq - 1, 3));
        }
    }
}

/// A wall makes no way shorter.
pub proof fn lemma_wall_shortens_nothing(
    b: Board,
    r: int,
    c: int,
    orientation: WallOrientation,
    src: Squares,
    sq: int,
)
    requires
        0 <= r < 8,
        0 <= c < 8,
        reach(board_steps(b.with_wall(r, c, orientation, true)), src, sq),
    ensures
        reach(board_steps(b), src, sq),
        dist(board_steps(b), src, sq) <= dist(
            board_steps(b.with_wall(r, c, orientation, true)),
            src,
            sq,
        ),
{
    let step = board_steps(b);
    let step2 = board_steps(b.with_wall(r, c, orientation, true));
    lemma_wall_opens_nothing(b, r, c, orientation, src, sq);
    lemma_dist_reach(step, src, sq);
    lemma_dist_reach(step2, src, sq);
    let n = dist(step, src, sq);
    let m = dist(step2, src, sq);
    lemma_fewer_steps(b, r, c, orientation, src, m as nat);
    if m < n {
        lemma_within_mono(step, src, sq, m as nat, (n - 1) as nat);
    }
}

/// A wall never opens a way: what is reached with it was reached without it.
pub proof fn lemma_wall_opens_nothing(
    b: Board,
    r: int,
    c: int,
    orientation: WallOrientation,
    src: Squares,
    sq: int,
)
    requires
        0 <= r < 8,
        0 <= c < 8,
        reach(board_steps(b.with_wall(r, c, orientation, true)), src, sq),
    ensures
        reach(board_steps(b), src, sq),
{
    let n = choose|n: nat|
        within(board_steps(b.with_wall(r, c, orientation, true)), src, sq, n);
    lemma_fewer_steps(b, r, c, orientation, src, n);
    assert(within(board_steps(b), src, sq, n));
}

} // verus!
