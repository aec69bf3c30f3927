//! The pawn grid as a graph: squares are numbered `row * 9 + col`, and a step
//! relation says from which square one can move in which direction.
//!
//! Directions are numbered 0 (row - 1), 1 (row + 1), 2 (column - 1) and
//! 3 (column + 1).

use vstd::prelude::*;

use crate::position::board::{Board, Player};
use crate::util::grid::{goal_row, open_step};

verus! {

/// `step(sq, d)`: one can move from square `sq` in direction `d`.
pub type StepRel = spec_fn(int, int) -> bool;

/// A set of squares.
pub type Squares = spec_fn(int) -> bool;

pub open spec fn dir_row(d: int) -> int {
    if d == 0 {
        -1
    } else if d == 1 {
        1
    } else {
        0
    }
}

pub open spec fn dir_col(d: int) -> int {
    if d == 2 {
        -1
    } else if d == 3 {
        1
    } else {
        0
    }
}

/// The square one arrives at.
pub open spec fn toward(sq: int, d: int) -> int {
    sq + 9 * dir_row(d) + dir_col(d)
}

/// The step relation of a pair of wall words.
pub open spec fn wall_steps(h: u64, v: u64) -> StepRel {
    |sq: int, d: int|
        0 <= sq < 81 && 0 <= d < 4 && open_step(h, v, sq / 9, sq % 9, dir_row(d), dir_col(d))
}

/// The step relation of a board.
pub open spec fn board_steps(b: Board) -> StepRel {
    wall_steps(b.horizontal_walls, b.vertical_walls)
}

/// The far row of a player.
pub open spec fn goal_squares(player: Player) -> Squares {
    |sq: int| 0 <= sq < 81 && goal_row(player, sq / 9)
}

/// One square.
pub open spec fn only(at: int) -> Squares {
    |sq: int| sq == at
}

/// `sq` can be reached from `src` in at most `n` steps.
pub open spec fn within(step: StepRel, src: Squares, sq: int, n: nat) -> bool
    decreases n,
{
    if n == 0 {
        src(sq)
    } else {
        let m = (n - 1) as nat;
        ||| within(step, src, sq, m)
        ||| (step(sq + 9, 0) && within(step, src, sq + 9, m))
        ||| (step(sq - 9, 1) && within(step, src, sq - 9, m))
        ||| (step(sq + 1, 2) && within(step, src, sq + 1, m))
        ||| (step(sq - 1, 3) && within(step, src, sq - 1, m))
    }
}

/// `sq` can be reached from `src`.
pub open spec fn reach(step: StepRel, src: Squares, sq: int) -> bool {
    exists|n: nat| within(step, src, sq, n)
}

/// `n` is the number of steps of a shortest way from `src` to `sq`.
pub open spec fn is_dist(step: StepRel, src: Squares, sq: int, n: nat) -> bool {
    within(step, src, sq, n) && (n > 0 ==> !within(step, src, sq, (n - 1) as nat))
}

/// The number of steps of a shortest way from `src` to `sq`, 255 if there is none.
pub open spec fn dist(step: StepRel, src: Squares, sq: int) -> int {
    if reach(step, src, sq) {
        (choose|n: nat| is_dist(step, src, sq, n)) as int
    } else {
        255
    }
}

/// The player's distance to the far row from where the pawn stands.
pub open spec fn goal_dist(b: Board, player: Player) -> int {
    dist(board_steps(b), goal_squares(player), pawn_sq(b, player))
}

/// The square of a player's pawn.
pub open spec fn pawn_sq(b: Board, player: Player) -> int {
    let p = b.pawns[player.index_spec()];
    p.0 * 9 + p.1
}

/// The player's pawn is connected to the far row.
pub open spec fn has_path(b: Board, player: Player) -> bool {
    reach(board_steps(b), goal_squares(player), pawn_sq(b, player))
}

/// Both pawns are connected to their far rows.
pub open spec fn both_have_paths(b: Board) -> bool {
    has_path(b, Player::One) && has_path(b, Player::Two)
}

pub proof fn lemma_within_mono(step: StepRel, src: Squares, sq: int, n: nat, m: nat)
    requires
        n <= m,
        within(step, src, sq, n),
    ensures
        within(step, src, sq, m),
    decreases m - n,
{
    if n < m {
        lemma_within_mono(step, src, sq, n, (m - 1) as nat);
    }
}

/// Reachability depends on the step relation and the sources as sets only.
pub proof fn lemma_within_same(step: StepRel, step2: StepRel, src: Squares, src2: Squares, n: nat)
    requires
        forall|sq: int, d: int| #[trigger] step(sq, d) == step2(sq, d),
        forall|sq: int| #[trigger] src(sq) == src2(sq),
    ensures
        forall|sq: int| #[trigger] within(step, src, sq, n) == within(step2, src2, sq, n),
    decreases n,
{
    if n > 0 {
        lemma_within_same(step, step2, src, src2, (n - 1) as nat);
        assert forall|sq: int| #[trigger]
            within(step, src, sq, n) == within(step2, src2, sq, n) by {
            let m = (n - 1) as nat;
            assert(within(step, src, sq, m) == within(step2, src2, sq, m));
            assert(within(step, src, sq + 9, m) == within(step2, src2, sq + 9, m));
            assert(within(step, src, sq - 9, m) == within(step2, src2, sq - 9, m));
            assert(within(step, src, sq + 1, m) == within(step2, src2, sq + 1, m));
            assert(within(step, src, sq - 1, m) == within(step2, src2, sq - 1, m));
            assert(step(sq + 9, 0) == step2(sq + 9, 0));
            assert(step(sq - 9, 1) == step2(sq - 9, 1));
            assert(step(sq + 1, 2) == step2(sq + 1, 2));
            assert(step(sq - 1, 3) == step2(sq - 1, 3));
        }
    }
}

/// The same for `reach` and `dist`.
pub proof fn lemma_reach_same(step: StepRel, step2: StepRel, src: Squares, src2: Squares, sq: int)
    requires
        forall|sq: int, d: int| #[trigger] step(sq, d) == step2(sq, d),
        forall|sq: int| #[trigger] src(sq) == src2(sq),
    ensures
        reach(step, src, sq) == reach(step2, src2, sq),
        dist(step, src, sq) == dist(step2, src2, sq),
{
    assert forall|n: nat| #[trigger] within(step, src, sq, n) == within(step2, src2, sq, n) by {
        lemma_within_same(step, step2, src, src2, n);
    }
    if reach(step, src, sq) {
        let n = choose|n: nat| within(step, src, sq, n);
        assert(within(step2, src2, sq, n));
        lemma_dist_exists(step, src, sq, n);
        let a = choose|n: nat| is_dist(step, src, sq, n);
        assert(within(step2, src2, sq, a));
        assert(is_dist(step2, src2, sq, a));
        let b = choose|n: nat| is_dist(step2, src2, sq, n);
        lemma_dist_unique(step2, src2, sq, a, b);
    } else if reach(step2, src2, sq) {
        let n = choose|n: nat| within(step2, src2, sq, n);
        assert(within(step, src, sq, n));
    }
}

pub proof fn lemma_dist_exists(step: StepRel, src: Squares, sq: int, n: nat)
    requires
        within(step, src, sq, n),
    ensures
        exists|k: nat| k <= n && is_dist(step, src, sq, k),
    decreases n,
{
    if n > 0 && within(step, src, sq, (n - 1) as nat) {
        lemma_dist_exists(step, src, sq, (n - 1) as nat);
        let k = choose|k: nat| k <= n - 1 && is_dist(step, src, sq, k);
        assert(k <= n && is_dist(step, src, sq, k));
    } else {
        assert(is_dist(step, src, sq, n));
    }
}

pub proof fn lemma_dist_unique(step: StepRel, src: Squares, sq: int, a: nat, b: nat)
    requires
        is_dist(step, src, sq, a),
        is_dist(step, src, sq, b),
    ensures
        a == b,
{
    if a < b {
        lemma_within_mono(step, src, sq, a, (b - 1) as nat);
    } else if b < a {
        lemma_within_mono(step, src, sq, b, (a - 1) as nat);
    }
}

/// What `dist` says where a shortest way is known.
pub proof fn lemma_dist_is(step: StepRel, src: Squares, sq: int, n: nat)
    requires
        is_dist(step, src, sq, n),
    ensures
        reach(step, src, sq),
        dist(step, src, sq) == n,
{
    assert(within(step, src, sq, n));
    let a = choose|n: nat| is_dist(step, src, sq, n);
    lemma_dist_unique(step, src, sq, a, n);
}

/// `dist` at a reachable square.
pub proof fn lemma_dist_reach(step: StepRel, src: Squares, sq: int)
    requires
        reach(step, src, sq),
    ensures
        dist(step, src, sq) >= 0,
        is_dist(step, src, sq, dist(step, src, sq) as nat),
{
    let n = choose|n: nat| within(step, src, sq, n);
    lemma_dist_exists(step, src, sq, n);
}

/// Steps start on the board.
pub open spec fn starts_on_board(step: StepRel) -> bool {
    forall|sq: int, d: int| #[trigger] step(sq, d) ==> 0 <= sq < 81
}

/// Once no further square is reached, none ever is.
pub proof fn lemma_stable(step: StepRel, src: Squares, n: nat, m: nat)
    requires
        n <= m,
        starts_on_board(step),
        forall|sq: int|
            0 <= sq < 81 && #[trigger] within(step, src, sq, n + 1) ==> within(step, src, sq, n),
    ensures
        forall|sq: int|
            0 <= sq < 81 && #[trigger] within(step, src, sq, m) ==> within(step, src, sq, n),
    decreases m,
{
    if n < m {
        let k = (m - 1) as nat;
        lemma_stable(step, src, n, k);
        assert forall|sq: int| 0 <= sq < 81 && #[trigger] within(step, src, sq, m) implies within(
            step,
            src,
            sq,
            n,
        ) by {
            assert(within(step, src, sq, k) ==> within(step, src, sq, n));
            assert(step(sq + 9, 0) && within(step, src, sq + 9, k) ==> within(step, src, sq + 9, n));
            assert(step(sq - 9, 1) && within(step, src, sq - 9, k) ==> within(step, src, sq - 9, n));
            assert(step(sq + 1, 2) && within(step, src, sq + 1, k) ==> within(step, src, sq + 1, n));
            assert(step(sq - 1, 3) && within(step, src, sq - 1, k) ==> within(step, src, sq - 1, n));
            assert(within(step, src, sq, n + 1));
        }
    }
}

/// `reach` after the flood has come to rest.
pub proof fn lemma_stable_reach(step: StepRel, src: Squares, n: nat, sq: int)
    requires
        starts_on_board(step),
        forall|sq: int|
            0 <= sq < 81 && #[trigger] within(step, src, sq, n + 1) ==> within(step, src, sq, n),
        0 <= sq < 81,
    ensures
        reach(step, src, sq) == within(step, src, sq, n),
{
    if reach(step, src, sq) {
        let m = choose|m: nat| within(step, src, sq, m);
        if m <= n {
            lemma_within_mono(step, src, sq, m, n);
        } else {
            lemma_stable(step, src, n, m);
        }
    }
}

/// Every step leads to a square of the board.
pub proof fn lemma_wall_steps_stay(h: u64, v: u64, sq: int, d: int)
    requires
        wall_steps(h, v)(sq, d),
    ensures
        0 <= sq < 81,
        0 <= d < 4,
        0 <= toward(sq, d) < 81,
        toward(sq, d) / 9 == sq / 9 + dir_row(d),
        toward(sq, d) % 9 == sq % 9 + dir_col(d),
{
    let r = sq / 9;
    let c = sq % 9;
    assert(sq == r * 9 + c);
    let r2 = r + dir_row(d);
    let c2 = c + dir_col(d);
    assert(toward(sq, d) == r2 * 9 + c2);
    assert(0 <= r2 <= 8 && 0 <= c2 <= 8);
}

/// The direction back.
pub open spec fn back(d: int) -> int {
    if d == 0 {
        1
    } else if d == 1 {
        0
    } else if d == 2 {
        3
    } else {
        2
    }
}

/// Walls block both ways.
pub proof fn lemma_wall_steps_symmetric(h: u64, v: u64, sq: int, d: int)
    requires
        wall_steps(h, v)(sq, d),
    ensures
        wall_steps(h, v)(toward(sq, d), back(d)),
        toward(toward(sq, d), back(d)) == sq,
{
    lemma_wall_steps_stay(h, v, sq, d);
}

/// How many of the first `k` squares are reached within `n` steps.
spec fn filled(step: StepRel, src: Squares, n: nat, k: int) -> int
    decreases k,
{
    if k <= 0 {
        0
    } else {
        filled(step, src, n, k - 1) + if within(step, src, k - 1, n) {
            1int
        } else {
            0
        }
    }
}

proof fn lemma_filled_grows(step: StepRel, src: Squares, n: nat, k: int, sq: int)
    requires
        0 <= k,
    ensures
        0 <= filled(step, src, n, k) <= k,
        filled(step, src, n, k) <= filled(step, src, n + 1, k),
        0 <= sq < k && within(step, src, sq, n + 1) && !within(step, src, sq, n) ==> filled(
            step,
            src,
            n,
            k,
        ) < filled(step, src, n + 1, k),
    decreases k,
{
    if k > 0 {
        lemma_filled_grows(step, src, n, k - 1, sq);
        if within(step, src, k - 1, n) {
            lemma_within_mono(step, src, k - 1, n, n + 1);
        }
    }
}

proof fn lemma_filled_enough(step: StepRel, src: Squares, sq: int, d: nat, n: nat)
    requires
        starts_on_board(step),
        0 <= sq < 81,
        is_dist(step, src, sq, d),
        n <= d,
    ensures
        filled(step, src, n, 81) >= n,
    decreases n,
{
    lemma_filled_grows(step, src, n, 81, 0);
    if n > 0 {
        let m = (n - 1) as nat;
        lemma_filled_enough(step, src, sq, d, m);
        if forall|s: int| 0 <= s < 81 && #[trigger] within(step, src, s, m + 1) ==> within(
            step,
            src,
            s,
            m,
        ) {
            lemma_stable(step, src, m, d);
            lemma_within_mono(step, src, sq, m, (d - 1) as nat);
        } else {
            let s = choose|s: int|
                0 <= s < 81 && #[trigger] within(step, src, s, m + 1) && !within(step, src, s, m);
            lemma_filled_grows(step, src, m, 81, s);
        }
    }
}

/// No way on the board is longer than it has squares.
pub proof fn lemma_dist_bound(step: StepRel, src: Squares, sq: int)
    requires
        starts_on_board(step),
        0 <= sq < 81,
        reach(step, src, sq),
    ensures
        0 <= dist(step, src, sq) <= 81,
{
    lemma_dist_reach(step, src, sq);
    let d = dist(step, src, sq) as nat;
    lemma_filled_enough(step, src, sq, d, d);
    lemma_filled_grows(step, src, d, 81, 0);
}

/// No player's way is longer than the board has squares.
pub proof fn lemma_goal_dist_bound(b: Board, player: Player)
    requires
        b.wf(),
    ensures
        has_path(b, player) ==> 0 <= goal_dist(b, player) <= 81,
{
    if has_path(b, player) {
        assert(0 <= pawn_sq(b, player) < 81);
        lemma_dist_bound(board_steps(b), goal_squares(player), pawn_sq(b, player));
    }
}

} // verus!
