//! Walls and two pawns: all that a pawn move depends on.

use vstd::prelude::*;

use crate::movegen::pawn_bits::pawn_moves_into;
use crate::movegen::rules::{
    lands_on_board, lemma_pawn_moves_exact, lemma_pawn_moves_land, lemma_pawn_moves_len, pawn_legal,
    pawn_moves, pawn_to, Sq,
};
use crate::position::board::Move;
use crate::util::grid::{open_step, step_open, with_slot};

verus! {

#[derive(Clone, Copy, PartialEq, Eq)]
pub struct MiniBoard {
    pub pawns: [(u8, u8); 2],
    pub horizontal_walls: u64,
    pub vertical_walls: u64,
}

impl MiniBoard {
    /// The square of a pawn as integers.
    pub open spec fn at(self, side: int) -> Sq {
        (self.pawns[side].0 as int, self.pawns[side].1 as int)
    }
}

impl Default for MiniBoard {
    fn default() -> (r: Self)
        ensures
            r.pawns@ == seq![(0u8, 0u8), (0u8, 0u8)],
            r.horizontal_walls == 0,
            r.vertical_walls == 0,
    {
        let r: MiniBoard = MiniBoard {
            pawns: [(0, 0), (0, 0)],
            horizontal_walls: 0,
            vertical_walls: 0,
        };
        assert(r.pawns@ =~= seq![(0u8, 0u8), (0u8, 0u8)]);
        r
    }
}

/// Whether a pawn on `(row, col)` can step by `(dr, dc)`.
#[inline]
pub fn can_step(b: &MiniBoard, row: u8, col: u8, dr: i8, dc: i8) -> (r: bool)
    ensures
        r == open_step(
            b.horizontal_walls,
            b.vertical_walls,
            row as int,
            col as int,
            dr as int,
            dc as int,
        ),
{
    step_open(b.horizontal_walls, b.vertical_walls, row, col, dr, dc)
}

/// Adds the wall at a slot.
pub fn set_wall(b: &mut MiniBoard, row: u8, col: u8, horizontal: bool)
    requires
        row < 8,
        col < 8,
    ensures
        final(b).pawns == old(b).pawns,
        final(b).horizontal_walls == (if horizontal {
            with_slot(old(b).horizontal_walls, row as int, col as int, true)
        } else {
            old(b).horizontal_walls
        }),
        final(b).vertical_walls == (if horizontal {
            old(b).vertical_walls
        } else {
            with_slot(old(b).vertical_walls, row as int, col as int, true)
        }),
{
    let bit: u64 = row as u64 * 8 + col as u64;
    if horizontal {
        b.horizontal_walls = b.horizontal_walls | (1u64 << bit);
    } else {
        b.vertical_walls = b.vertical_walls | (1u64 << bit);
    }
}

/// Square number of a pawn move.
pub open spec fn move_square(mv: Move) -> u8 {
    match mv {
        Move::Pawn { row, col } => (row * 9 + col) as u8,
        Move::Wall { .. } => 255,
    }
}

/// Destination squares of the legal pawn moves from `from_sq`, none if the
/// pawn of `side` does not stand there.
pub fn pawn_move_dests(b: &MiniBoard, side: usize, from_sq: u8) -> (r: ([u8; 8], usize))
    requires
        side < 2,
        b.pawns[side as int].0 < 9,
        b.pawns[side as int].1 < 9,
    ensures
        ({
            let f = b.at(side as int);
            let s = pawn_moves(b.horizontal_walls, b.vertical_walls, f, b.at(1 - side));
            &&& r.1 <= 5
            &&& f.0 * 9 + f.1 != from_sq ==> r.1 == 0
            &&& f.0 * 9 + f.1 == from_sq ==> r.1 == s.len() && forall|k: int|
                0 <= k < r.1 ==> #[trigger] r.0[k] == move_square(s[k])
            &&& forall|k: int| r.1 <= k < 8 ==> #[trigger] r.0[k] == 0
        }),
{
    let f: (u8, u8) = b.pawns[side];
    if f.0 * 9 + f.1 != from_sq {
        return ([0u8; 8], 0);
    }
    let o: (u8, u8) = b.pawns[1 - side];
    proof {
        let h = b.horizontal_walls;
        let v = b.vertical_walls;
        lemma_pawn_moves_len(h, v, b.at(side as int), b.at(1 - side));
        lemma_pawn_moves_land(h, v, b.at(side as int), b.at(1 - side));
    }
    let mut buf: [Move; 8] = [Move::Pawn { row: 0, col: 0 }; 8];
    let n: usize = pawn_moves_into(b.horizontal_walls, b.vertical_walls, f, o, &mut buf);
    (to_squares(&buf, n), n)
}

/// Square numbers of the first `n` moves.
fn to_squares(buf: &[Move; 8], n: usize) -> (dests: [u8; 8])
    requires
        n <= 8,
        forall|k: int| 0 <= k < n ==> lands_on_board(#[trigger] buf[k]),
    ensures
        forall|k: int| 0 <= k < n ==> #[trigger] dests[k] == move_square(buf[k]),
        forall|k: int| n <= k < 8 ==> #[trigger] dests[k] == 0,
{
    let mut dests: [u8; 8] = [0u8; 8];
    let mut i: usize = 0;
    while i < n
        invariant
            i <= n <= 8,
            forall|k: int| 0 <= k < n ==> lands_on_board(#[trigger] buf[k]),
            forall|k: int| 0 <= k < i ==> #[trigger] dests[k] == move_square(buf[k]),
            forall|k: int| i <= k < 8 ==> #[trigger] dests[k] == 0,
        decreases n - i,
    {
        assert(lands_on_board(buf[i as int]));
        match buf[i] {
            Move::Pawn { row, col } => {
                dests[i] = row * 9 + col;
            },
            Move::Wall { .. } => {},
        }
        i = i + 1;
    }
    dests
}

/// The destinations found are the legal ones.
pub proof fn lemma_dests_legal(h: u64, v: u64, f: Sq, o: Sq, t: Sq)
    requires
        0 <= f.0 < 9,
        0 <= f.1 < 9,
        0 <= t.0 < 9,
        0 <= t.1 < 9,
    ensures
        pawn_legal(h, v, f, o, pawn_to(t)) == exists|k: int|
            0 <= k < pawn_moves(h, v, f, o).len() && move_square(
                #[trigger] pawn_moves(h, v, f, o)[k],
            ) == t.0 * 9 + t.1,
{
    lemma_pawn_moves_exact(h, v, f, o, pawn_to(t));
    lemma_pawn_moves_land(h, v, f, o);
    lemma_list_square(pawn_moves(h, v, f, o), t);
}

proof fn lemma_list_square(s: Seq<Move>, t: Sq)
    requires
        0 <= t.0 < 9,
        0 <= t.1 < 9,
        forall|k: int| 0 <= k < s.len() ==> lands_on_board(#[trigger] s[k]),
    ensures
        s.contains(pawn_to(t)) == exists|k: int|
            0 <= k < s.len() && move_square(#[trigger] s[k]) == t.0 * 9 + t.1,
{
    if s.contains(pawn_to(t)) {
        let k = choose|k: int| 0 <= k < s.len() && s[k] == pawn_to(t);
        assert(move_square(s[k]) == t.0 * 9 + t.1);
    }
    if exists|k: int| 0 <= k < s.len() && move_square(#[trigger] s[k]) == t.0 * 9 + t.1 {
        let k = choose|k: int| 0 <= k < s.len() && move_square(#[trigger] s[k]) == t.0 * 9 + t.1;
        assert(lands_on_board(s[k]));
        assert(s[k] == pawn_to(t));
    }
}

} // verus!
