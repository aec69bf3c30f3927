//! Shortest ways, square by square, and the region of both pawns.

use vstd::prelude::*;

use crate::path::bfs::BfsScratch;
use crate::path::distance::{fill_dist_to_goal_row, is_field, lemma_field_steps};
use crate::path::flood::{flood_all, lemma_masks_reach, lemma_only};
use crate::path::graph::{
    back, board_steps, dist, goal_dist, goal_squares, has_path, is_dist, lemma_dist_exists,
    lemma_dist_is, lemma_dist_reach, lemma_wall_steps_stay, lemma_wall_steps_symmetric, only,
    pawn_sq, reach, toward, within, Squares, StepRel,
};
use crate::path::masks::DirMasks;
use crate::position::board::{Board, Player};
use crate::util::bits::{bit128, lemma_bits128};
use crate::util::grid::can_step;

verus! {

/// Direction `d` leads from `sq` one step closer.
pub open spec fn closer_by(step: StepRel, field: Seq<u8>, sq: int, d: int) -> bool {
    &&& 0 <= d < 4
    &&& step(sq, d)
    &&& field[toward(sq, d)] + 1 == field[sq]
}

/// The next square of a shortest way: one step closer in the first direction
/// of row - 1, row + 1, column - 1, column + 1; 255 on the goal row and where
/// there is no way.
pub open spec fn next_toward(step: StepRel, field: Seq<u8>, sq: int) -> int {
    if closer_by(step, field, sq, 0) {
        sq - 9
    } else if closer_by(step, field, sq, 1) {
        sq + 9
    } else if closer_by(step, field, sq, 2) {
        sq - 1
    } else if closer_by(step, field, sq, 3) {
        sq + 1
    } else {
        255
    }
}

/// Off the goal row a connected square has a next one.
pub proof fn lemma_next_exists(b: Board, player: Player, field: Seq<u8>, sq: int)
    requires
        is_field(field, board_steps(b), goal_squares(player)),
        0 <= sq < 81,
        0 < field[sq] < 255,
    ensures
        next_toward(board_steps(b), field, sq) != 255,
{
    let st = board_steps(b);
    let src = goal_squares(player);
    let n = field[sq] as nat;
    assert(reach(st, src, sq));
    lemma_dist_reach(st, src, sq);
    assert(is_dist(st, src, sq, n));
    let m = (n - 1) as nat;
    assert(within(st, src, sq, n) && !within(st, src, sq, m));
    if st(sq + 9, 0) && within(st, src, sq + 9, m) {
        lemma_one_closer(b, player, field, sq + 9, 0, n);
    } else if st(sq - 9, 1) && within(st, src, sq - 9, m) {
        lemma_one_closer(b, player, field, sq - 9, 1, n);
    } else if st(sq + 1, 2) && within(st, src, sq + 1, m) {
        lemma_one_closer(b, player, field, sq + 1, 2, n);
    } else {
        assert(st(sq - 1, 3) && within(st, src, sq - 1, m));
        lemma_one_closer(b, player, field, sq - 1, 3, n);
    }
}

/// The square before, seen from the square after.
proof fn lemma_one_closer(b: Board, player: Player, field: Seq<u8>, from: int, d: int, n: nat)
    requires
        is_field(field, board_steps(b), goal_squares(player)),
        board_steps(b)(from, d),
        n > 0,
        within(board_steps(b), goal_squares(player), from, (n - 1) as nat),
        is_dist(board_steps(b), goal_squares(player), toward(from, d), n),
    ensures
        closer_by(board_steps(b), field, toward(from, d), back(d)),
        0 <= from < 81,
{
    let st = board_steps(b);
    let src = goal_squares(player);
    let sq = toward(from, d);
    lemma_wall_steps_stay(b.horizontal_walls, b.vertical_walls, from, d);
    lemma_wall_steps_symmetric(b.horizontal_walls, b.vertical_walls, from, d);
    lemma_dist_exists(st, src, from, (n - 1) as nat);
    let k = choose|k: nat| k <= n - 1 && is_dist(st, src, from, k);
    lemma_dist_is(st, src, from, k);
    lemma_dist_is(st, src, sq, n);
    if k < n - 1 {
        assert(within(st, src, sq, k + 1)) by {
            assert(within(st, src, from, k));
            assert(from == sq + 9 || from == sq - 9 || from == sq + 1 || from == sq - 1);
        }
        crate::path::graph::lemma_within_mono(st, src, sq, k + 1, (n - 1) as nat);
    }
    assert(field[from] == k);
    assert(field[sq] == n);
}

/// The squares that either pawn is connected to.
pub open spec fn either_reaches(b: Board, sq: int) -> bool {
    reach(board_steps(b), only(pawn_sq(b, Player::One)), sq) || reach(
        board_steps(b),
        only(pawn_sq(b, Player::Two)),
        sq,
    )
}

/// One step leads from square `a` to square `b`.
pub open spec fn one_step(step: StepRel, a: int, b: int) -> bool {
    exists|d: int| #[trigger] step(a, d) && toward(a, d) == b
}

/// One step leads from entry `k` of a path to the next.
pub open spec fn linked(step: StepRel, path: Seq<u8>, k: int) -> bool {
    one_step(step, path[k] as int, path[k + 1] as int)
}

/// `path[..len]` is the shortest way of the player's pawn that always takes
/// the first direction closer; the pawn's square alone where there is no way.
pub open spec fn is_route(b: Board, player: Player, path: Seq<u8>, len: int) -> bool {
    &&& 1 <= len <= path.len()
    &&& path[0] == pawn_sq(b, player)
    &&& forall|k: int| 0 <= k < len ==> 0 <= #[trigger] path[k] < 81
    &&& !has_path(b, player) ==> len == 1
    &&& has_path(b, player) ==> len == goal_dist(b, player) + 1 && goal_squares(player)(
        path[len - 1] as int,
    )
    &&& forall|k: int|
        0 <= k < len - 1 ==> dist(board_steps(b), goal_squares(player), #[trigger] path[k] as int)
            == len - 1 - k
    &&& forall|k: int| 0 <= k < len - 1 ==> #[trigger] linked(board_steps(b), path, k)
}

impl BfsScratch {
    /// For every square the next one of a shortest way to the player's far
    /// row, 255 where there is none.
    pub fn fill_next_toward_goal(&self, board: &Board, player: Player, out: &mut [u8; 81])
        ensures
            exists|field: Seq<u8>|
                is_field(field, board_steps(*board), goal_squares(player)) && forall|sq: int|
                    0 <= sq < 81 ==> #[trigger] final(out)[sq] == #[trigger] next_toward(
                        board_steps(*board),
                        field,
                        sq,
                    ),
    {
        let masks: DirMasks = DirMasks::from_board(board);
        let mut field: [u8; 81] = [255u8; 81];
        fill_dist_to_goal_row(player, masks, &mut field);
        proof {
            lemma_field_steps(field@, masks, board_steps(*board), goal_squares(player));
        }
        let ghost st = board_steps(*board);
        let mut sq: usize = 0;
        while sq < 81
            invariant
                sq <= 81,
                st == board_steps(*board),
                is_field(field@, st, goal_squares(player)),
                forall|i: int| 0 <= i < sq ==> #[trigger] out[i] == next_toward(st, field@, i),
            decreases 81 - sq,
        {
            let r: u8 = (sq / 9) as u8;
            let c: u8 = (sq % 9) as u8;
            let here: u8 = field[sq];
            let mut next: u8 = 255;
            if here != 0 {
                proof {
                    assert(sq == r * 9 + c);
                    assert(st(sq as int, 0) ==> r >= 1);
                    assert(st(sq as int, 1) ==> r <= 7);
                    assert(st(sq as int, 2) ==> c >= 1);
                    assert(st(sq as int, 3) ==> c <= 7);
                }
                if can_step(board, r, c, -1, 0) && field[sq - 9] == here - 1 {
                    next = (sq - 9) as u8;
                } else if can_step(board, r, c, 1, 0) && field[sq + 9] == here - 1 {
                    next = (sq + 9) as u8;
                } else if can_step(board, r, c, 0, -1) && field[sq - 1] == here - 1 {
                    next = (sq - 1) as u8;
                } else if can_step(board, r, c, 0, 1) && field[sq + 1] == here - 1 {
                    next = (sq + 1) as u8;
                }
            }
            out[sq] = next;
            sq = sq + 1;
        }
        assert forall|i: int| 0 <= i < 81 implies #[trigger] out[i] == #[trigger] next_toward(
            st,
            field@,
            i,
        ) by {}
    }

    /// The squares that either pawn is connected to, one bit each.
    pub fn both_reachable_mask(&self, board: &Board) -> (m: u128)
        requires
            board.wf(),
        ensures
            forall|i: int| 0 <= i < 81 ==> bit128(m, i) == #[trigger] either_reaches(*board, i),
    {
        let masks: DirMasks = DirMasks::from_board(board);
        let (r1, c1) = board.pawn(Player::One);
        let (r2, c2) = board.pawn(Player::Two);
        let s1: u8 = r1 * 9 + c1;
        let s2: u8 = r2 * 9 + c2;
        let one: u128 = flood_all(&masks, 1u128 << (s1 as u128));
        let two: u128 = flood_all(&masks, 1u128 << (s2 as u128));
        proof {
            lemma_only(s1 as int);
            lemma_only(s2 as int);
            assert forall|i: int| 0 <= i < 81 implies bit128(one | two, i)
                == #[trigger] either_reaches(*board, i) by {
                lemma_bits128(one, two, i);
                lemma_masks_reach(
                    masks,
                    board_steps(*board),
                    only(s1 as int),
                    1u128 << (s1 as u128),
                    i,
                );
                lemma_masks_reach(
                    masks,
                    board_steps(*board),
                    only(s2 as int),
                    1u128 << (s2 as u128),
                    i,
                );
            }
        }
        one | two
    }
}

/// Writes the player's shortest way into `path_out`; its number of squares.
pub fn get_shortest_path(board: &Board, player: Player, bfs: &BfsScratch, path_out: &mut [u8; 81]) -> (len: usize)
    requires
        board.wf(),
    ensures
        is_route(*board, player, final(path_out)@, len as int),
        forall|k: int| len <= k < 81 ==> #[trigger] final(path_out)[k] == old(path_out)[k],
{
    let mut next: [u8; 81] = [255u8; 81];
    bfs.fill_next_toward_goal(board, player, &mut next);
    let ghost st = board_steps(*board);
    let ghost field = choose|field: Seq<u8>|
        is_field(field, board_steps(*board), goal_squares(player)) && forall|sq: int|
            0 <= sq < 81 ==> #[trigger] next[sq] == #[trigger] next_toward(
                board_steps(*board),
                field,
                sq,
            );
    let (pr, pc) = board.pawn(player);
    let mut current: u8 = pr * 9 + pc;
    let ghost start = current as int;
    let mut len: usize = 0;
    let ghost total = field[start] as int;
    proof {
        assert(field[start] == dist(st, goal_squares(player), start));
    }
    while current != 255
        invariant_except_break
            len < 81,
        invariant
            st == board_steps(*board),
            len <= 81,
            start == pawn_sq(*board, player),
            0 <= start < 81,
            total == field[start],
            is_field(field, st, goal_squares(player)),
            forall|sq: int|
                0 <= sq < 81 ==> #[trigger] next[sq] == #[trigger] next_toward(st, field, sq),
            len == 0 ==> current == start,
            current != 255 ==> current < 81,
            len > 0 ==> path_out[0] == start,
            forall|k: int| 0 <= k < len ==> 0 <= #[trigger] path_out[k] < 81,
            forall|k: int| len <= k < 81 ==> #[trigger] path_out[k] == old(path_out)[k],
            total < 255 ==> forall|k: int|
                0 <= k < len ==> field[#[trigger] path_out[k] as int] == total - k,
            total == 255 ==> len <= 1 && (len == 1 ==> current == 255),
            total < 255 && current != 255 ==> len <= total && field[current as int] == total - len,
            total < 255 && current == 255 ==> len == total + 1,
            current == 255 ==> len >= 1,
            len > 0 && current != 255 ==> one_step(
                st,
                path_out[len - 1] as int,
                current as int,
            ),
            forall|k: int| 0 <= k < len - 1 ==> #[trigger] linked(st, path_out@, k),
        ensures
            current == 255 || len == 81,
        decreases 81 - len,
    {
        let ghost before = path_out@;
        let ghost at = current as int;
        path_out[len] = current;
        len = len + 1;
        let ghost was = current;
        current = next[current as usize];
        proof {
            assert(current == next_toward(st, field, at));
            if total < 255 {
                if field[at] > 0 {
                    lemma_next_exists(*board, player, field, at);
                    lemma_next_dir(st, field, at);
                    let dd = choose|d: int| #[trigger]
                        closer_by(st, field, at, d) && toward(at, d) == current;
                    lemma_wall_steps_stay(
                        board.horizontal_walls,
                        board.vertical_walls,
                        at,
                        dd,
                    );
                    assert(one_step(st, at, current as int));
                } else {
                    lemma_next_none(st, field, at);
                }
            } else {
                lemma_next_lost(*board, player, field, at);
            }
            assert(path_out@ == before.update(len - 1, was));
            assert forall|k: int| 0 <= k < len - 1 implies #[trigger] linked(st, path_out@, k) by {
                if k < len - 2 {
                    assert(linked(st, before, k));
                }
            }
        }
        if len >= 81 {
            break;
        }
    }
    proof {
        if total < 255 {
            lemma_dist_reach(st, goal_squares(player), start);
            assert(len == total + 1);
            let last = path_out[len - 1] as int;
            assert(field[last] == 0);
            lemma_zero_dist(st, goal_squares(player), field, last);
        }
        assert forall|k: int| 0 <= k < len - 1 implies dist(
            st,
            goal_squares(player),
            #[trigger] path_out[k] as int,
        ) == len - 1 - k by {
            assert(field[path_out[k] as int] == total - k);
        }
    }
    len
}

/// Which direction the next square lies in.
proof fn lemma_next_dir(st: StepRel, field: Seq<u8>, sq: int)
    requires
        next_toward(st, field, sq) != 255,
        0 <= sq < 81,
    ensures
        exists|d: int| #[trigger]
            closer_by(st, field, sq, d) && toward(sq, d) == next_toward(st, field, sq),
{
    if closer_by(st, field, sq, 0) {
        assert(toward(sq, 0) == sq - 9);
    } else if closer_by(st, field, sq, 1) {
        assert(toward(sq, 1) == sq + 9);
    } else if closer_by(st, field, sq, 2) {
        assert(toward(sq, 2) == sq - 1);
    } else {
        assert(toward(sq, 3) == sq + 1);
    }
}

/// On the goal row there is no next square.
proof fn lemma_next_none(st: StepRel, field: Seq<u8>, sq: int)
    requires
        field[sq] == 0,
    ensures
        next_toward(st, field, sq) == 255,
{
}

/// Without a way there is no next square.
proof fn lemma_next_lost(b: Board, player: Player, field: Seq<u8>, sq: int)
    requires
        is_field(field, board_steps(b), goal_squares(player)),
        0 <= sq < 81,
        field[sq] == 255,
    ensures
        next_toward(board_steps(b), field, sq) == 255,
{
    let st = board_steps(b);
    assert forall|d: int| !(#[trigger] closer_by(st, field, sq, d)) by {
        if closer_by(st, field, sq, d) {
            lemma_wall_steps_stay(b.horizontal_walls, b.vertical_walls, sq, d);
            assert(field[toward(sq, d)] == 254);
        }
    }
    assert(!closer_by(st, field, sq, 0) && !closer_by(st, field, sq, 1) && !closer_by(
        st,
        field,
        sq,
        2,
    ) && !closer_by(st, field, sq, 3));
}

/// A square at distance 0 is a source.
proof fn lemma_zero_dist(st: StepRel, src: Squares, field: Seq<u8>, sq: int)
    requires
        is_field(field, st, src),
        0 <= sq < 81,
        field[sq] == 0,
    ensures
        src(sq),
{
    assert(reach(st, src, sq));
    lemma_dist_reach(st, src, sq);
    assert(is_dist(st, src, sq, 0));
}

} // verus!
