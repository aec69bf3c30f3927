//! Open steps as one bit set per direction.

use vstd::prelude::*;

use crate::ace::game::{dir_bit, wall_blocks, AceGame};
use crate::path::graph::{board_steps, wall_steps, StepRel};
use crate::position::board::{Board, WallOrientation};
use crate::util::bits::{bit128, lemma_bits128, lemma_one128};
use crate::util::grid::{can_step, lemma_with_slot, with_slot};

verus! {

/// Bit `sq` is set iff a pawn on `sq` may step in that direction.
#[derive(Clone, Copy)]
pub struct DirMasks {
    pub north: u128,
    pub south: u128,
    pub east: u128,
    pub west: u128,
}

impl DirMasks {
    /// The steps that the masks allow.
    pub open spec fn steps(self) -> StepRel {
        |sq: int, d: int|
            0 <= sq < 81 && ((d == 0 && bit128(self.north, sq)) || (d == 1 && bit128(
                self.south,
                sq,
            )) || (d == 2 && bit128(self.west, sq)) || (d == 3 && bit128(self.east, sq)))
    }

    /// No bit stands for anything but a square.
    pub open spec fn wf(self) -> bool {
        forall|i: int|
            81 <= i < 128 ==> !bit128(self.north, i) && !bit128(self.south, i) && !bit128(
                self.east,
                i,
            ) && !bit128(self.west, i)
    }

    /// The masks allow exactly the steps of `step`.
    pub open spec fn allows(self, step: StepRel) -> bool {
        &&& self.wf()
        &&& forall|sq: int, d: int| #[trigger] self.steps()(sq, d) == step(sq, d)
    }

    /// No step at all.
    pub fn none() -> (m: Self)
        ensures
            m.wf(),
            forall|sq: int, d: int| !(#[trigger] m.steps()(sq, d)),
    {
        let m: DirMasks = DirMasks { north: 0, south: 0, east: 0, west: 0 };
        assert forall|i: int| 0 <= i < 128 implies !bit128(0, i) by {
            lemma_bits128(0, 0, i);
        }
        m
    }

    /// The steps that the walls of a board leave open.
    pub fn from_board(board: &Board) -> (m: Self)
        ensures
            m.allows(board_steps(*board)),
    {
        let mut north: u128 = 0;
        let mut south: u128 = 0;
        let mut east: u128 = 0;
        let mut west: u128 = 0;
        let mut sq: u8 = 0;
        let ghost step = board_steps(*board);
        proof {
            assert forall|i: int| 0 <= i < 128 implies !bit128(0, i) by {
                lemma_bits128(0, 0, i);
            }
        }
        while sq < 81
            invariant
                sq <= 81,
                step == board_steps(*board),
                forall|i: int| 0 <= i < 128 ==> bit128(north, i) == (i < sq && step(i, 0)),
                forall|i: int| 0 <= i < 128 ==> bit128(south, i) == (i < sq && step(i, 1)),
                forall|i: int| 0 <= i < 128 ==> bit128(west, i) == (i < sq && step(i, 2)),
                forall|i: int| 0 <= i < 128 ==> bit128(east, i) == (i < sq && step(i, 3)),
            decreases 81 - sq,
        {
            let r: u8 = sq / 9;
            let c: u8 = sq % 9;
            north = with_square(north, sq, can_step(board, r, c, -1, 0));
            south = with_square(south, sq, can_step(board, r, c, 1, 0));
            west = with_square(west, sq, can_step(board, r, c, 0, -1));
            east = with_square(east, sq, can_step(board, r, c, 0, 1));
            sq = sq + 1;
        }
        DirMasks { north, south, east, west }
    }

    /// The steps that the walls of a game leave open, by its blocked cells.
    pub fn from_ace_game(g: &AceGame) -> (m: Self)
        requires
            g.wf(),
        ensures
            m.allows(wall_steps(g@.h, g@.v)),
    {
        let mut north: u128 = 0;
        let mut south: u128 = 0;
        let mut east: u128 = 0;
        let mut west: u128 = 0;
        let mut sq: u8 = 0;
        let ghost step = wall_steps(g@.h, g@.v);
        proof {
            assert forall|i: int| 0 <= i < 128 implies !bit128(0, i) by {
                lemma_bits128(0, 0, i);
            }
        }
        while sq < 81
            invariant
                sq <= 81,
                g.wf(),
                step == wall_steps(g@.h, g@.v),
                forall|i: int| 0 <= i < 128 ==> bit128(north, i) == (i < sq && step(i, 0)),
                forall|i: int| 0 <= i < 128 ==> bit128(south, i) == (i < sq && step(i, 1)),
                forall|i: int| 0 <= i < 128 ==> bit128(west, i) == (i < sq && step(i, 2)),
                forall|i: int| 0 <= i < 128 ==> bit128(east, i) == (i < sq && step(i, 3)),
            decreases 81 - sq,
        {
            let b: u8 = g.blocked[sq as usize];
            proof {
                let c = sq as int;
                assert(dir_bit(g.blocked@[c], 0) == wall_blocks(g@.h, g@.v, c, 0));
                assert(dir_bit(g.blocked@[c], 1) == wall_blocks(g@.h, g@.v, c, 1));
                assert(dir_bit(g.blocked@[c], 2) == wall_blocks(g@.h, g@.v, c, 2));
                assert(dir_bit(g.blocked@[c], 3) == wall_blocks(g@.h, g@.v, c, 3));
            }
            north = with_square(north, sq, sq >= 9 && b & 1 == 0);
            south = with_square(south, sq, sq < 72 && b & 2 == 0);
            west = with_square(west, sq, sq % 9 > 0 && b & 4 == 0);
            east = with_square(east, sq, sq % 9 < 8 && b & 8 == 0);
            sq = sq + 1;
        }
        DirMasks { north, south, east, west }
    }

    /// The masks after one more wall of the type (0 horizontal, 1 vertical) has
    /// gone up over walls `h` and `v`.
    pub fn with_ace_wall(self, h: u64, v: u64, wall_type: usize, slot_no: usize) -> (m: Self)
        requires
            self.allows(wall_steps(h, v)),
            slot_no < 64,
        ensures
            wall_type == 0 ==> m.allows(
                wall_steps(with_slot(h, slot_no as int / 8, slot_no as int % 8, true), v),
            ),
            wall_type != 0 ==> m.allows(
                wall_steps(h, with_slot(v, slot_no as int / 8, slot_no as int % 8, true)),
            ),
    {
        let row: u8 = (slot_no / 8) as u8;
        let col: u8 = (slot_no % 8) as u8;
        let a: u8 = row * 9 + col;
        let m: DirMasks = if wall_type == 0 {
            DirMasks {
                south: without_squares(self.south, a, a + 1),
                north: without_squares(self.north, a + 9, a + 10),
                ..self
            }
        } else {
            DirMasks {
                east: without_squares(self.east, a, a + 9),
                west: without_squares(self.west, a + 1, a + 10),
                ..self
            }
        };
        proof {
            let w = if wall_type == 0 {
                h
            } else {
                v
            };
            let w2 = with_slot(w, row as int, col as int, true);
            let step = wall_steps(h, v);
            let step2 = if wall_type == 0 {
                wall_steps(w2, v)
            } else {
                wall_steps(h, w2)
            };
            assert forall|sq: int, d: int| #[trigger] m.steps()(sq, d) == step2(sq, d) by {
                assert(self.steps()(sq, d) == step(sq, d));
                if 0 <= sq < 81 && 0 <= d < 4 {
                    let r = sq / 9;
                    let c = sq % 9;
                    assert(sq == r * 9 + c);
                    lemma_with_slot(w, row as int, col as int, true, r, c);
                    lemma_with_slot(w, row as int, col as int, true, r, c - 1);
                    lemma_with_slot(w, row as int, col as int, true, r - 1, c);
                    lemma_with_slot(w, row as int, col as int, true, r - 1, c - 1);
                }
            }
        }
        m
    }

    /// The masks after one more wall has gone up on the board.
    pub fn with_wall(self, board: &Board, row: u8, col: u8, orientation: WallOrientation) -> (m: Self)
        requires
            self.allows(board_steps(*board)),
            row < 8,
            col < 8,
        ensures
            m.allows(board_steps(board.with_wall(row as int, col as int, orientation, true))),
    {
        let a: u8 = row * 9 + col;
        let h: u64 = board.horizontal_walls;
        let v: u64 = board.vertical_walls;
        let m: DirMasks = match orientation {
            WallOrientation::Horizontal => DirMasks {
                south: without_squares(self.south, a, a + 1),
                north: without_squares(self.north, a + 9, a + 10),
                ..self
            },
            WallOrientation::Vertical => DirMasks {
                east: without_squares(self.east, a, a + 9),
                west: without_squares(self.west, a + 1, a + 10),
                ..self
            },
        };
        proof {
            let after = board.with_wall(row as int, col as int, orientation, true);
            let step = board_steps(*board);
            let step2 = board_steps(after);
            let w = match orientation {
                WallOrientation::Horizontal => h,
                WallOrientation::Vertical => v,
            };
            assert forall|sq: int, d: int| #[trigger] m.steps()(sq, d) == step2(sq, d) by {
                assert(self.steps()(sq, d) == step(sq, d));
                if 0 <= sq < 81 && 0 <= d < 4 {
                    let r = sq / 9;
                    let c = sq % 9;
                    assert(sq == r * 9 + c);
                    lemma_with_slot(w, row as int, col as int, true, r, c);
                    lemma_with_slot(w, row as int, col as int, true, r, c - 1);
                    lemma_with_slot(w, row as int, col as int, true, r - 1, c);
                    lemma_with_slot(w, row as int, col as int, true, r - 1, c - 1);
                }
            }
        }
        m
    }
}

/// The set with one square added when `on`.
#[inline]
pub fn with_square(m: u128, sq: u8, on: bool) -> (r: u128)
    requires
        sq < 81,
    ensures
        forall|i: int| 0 <= i < 128 ==> bit128(r, i) == (bit128(m, i) || (on && i == sq)),
{
    if on {
        let r: u128 = m | (1u128 << (sq as u128));
        proof {
            assert forall|i: int| 0 <= i < 128 implies bit128(r, i) == (bit128(m, i) || (on && i
                == sq)) by {
                lemma_bits128(m, 1u128 << (sq as u128), i);
                lemma_one128(m, sq as int, i);
            }
        }
        r
    } else {
        m
    }
}

/// The set without two squares.
#[inline]
pub fn without_squares(m: u128, a: u8, b: u8) -> (r: u128)
    requires
        a < 81,
        b < 81,
    ensures
        forall|i: int| 0 <= i < 128 ==> bit128(r, i) == (bit128(m, i) && i != a && i != b),
{
    let x: u128 = 1u128 << (a as u128);
    let y: u128 = 1u128 << (b as u128);
    let r: u128 = m & !(x | y);
    proof {
        assert forall|i: int| 0 <= i < 128 implies bit128(r, i) == (bit128(m, i) && i != a && i
            != b) by {
            lemma_bits128(m, !(x | y), i);
            lemma_bits128(x | y, y, i);
            lemma_bits128(x, y, i);
            lemma_one128(m, a as int, i);
            lemma_one128(m, b as int, i);
        }
    }
    r
}

impl Default for DirMasks {
    fn default() -> (m: Self)
        ensures
            m.wf(),
            forall|sq: int, d: int| !(#[trigger] m.steps()(sq, d)),
    {
        Self::none()
    }
}

} // verus!
