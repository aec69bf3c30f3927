//! The Quoridor board: rows and columns `0..9`, wall bit sets, incremental key.

use vstd::prelude::*;
use vstd::string::StringSliceAdditionalSpecFns;

use crate::position::zobrist::{
    board_key, hash_board, lemma_pawn_delta, lemma_wall_delta, pawn_delta, pawn_move_delta,
    wall_delta_key, wall_move_delta,
};
use crate::util::bits::bit64;
use crate::util::bits::lemma_ext64;
use crate::util::grid::{lemma_with_slot, set_wall, slot, with_slot};
use crate::util::text::{decimal, push_decimal};

verus! {

pub type Row = u8;

pub type Column = u8;

#[derive(Debug, Clone, Copy, PartialEq, Eq, Hash, Structural)]
pub enum Player {
    One,
    Two,
}

impl Player {
    /// The other player.
    pub open spec fn opposite_spec(self) -> Player {
        match self {
            Player::One => Player::Two,
            Player::Two => Player::One,
        }
    }

    /// Position of the player in per-player arrays.
    pub open spec fn index_spec(self) -> int {
        match self {
            Player::One => 0,
            Player::Two => 1,
        }
    }

    /// The other player.
    pub fn opposite(self) -> (r: Self)
        ensures
            r == self.opposite_spec(),
    {
        match self {
            Player::One => Player::Two,
            Player::Two => Player::One,
        }
    }

    /// Position of the player in per-player arrays.
    pub fn index(self) -> (r: usize)
        ensures
            r == self.index_spec(),
    {
        match self {
            Player::One => 0,
            Player::Two => 1,
        }
    }
}

#[derive(Debug, Clone, Copy, PartialEq, Eq, Hash, Structural)]
pub enum WallOrientation {
    Horizontal,
    Vertical,
}

#[derive(Debug, Clone, Copy, PartialEq, Eq, Hash, Structural)]
pub enum Move {
    Pawn { row: Row, col: Column },
    Wall { row: Row, col: Column, orientation: WallOrientation },
}

/// Saved state for `unmake_move`; everything else is recomputed by inverse steps.
#[derive(Debug, Clone, Copy)]
pub struct Undo {
    pub mv: Move,
    pub pawn_from: (Row, Column),
    pub hash: u64,
    pub verify: u32,
}

#[derive(Debug, Clone, Copy, PartialEq, Eq, Hash)]
pub struct Board {
    pub pawns: [(Row, Column); 2],
    pub walls_remaining: [u8; 2],
    pub horizontal_walls: u64,
    pub vertical_walls: u64,
    pub side_to_move: Player,
    pub move_number: u32,
    pub hash: u64,
    /// Cached signature; kept current by `make_move` and `unmake_move`.
    pub verify: u32,
}

/// The 32-bit signature of pawns, side to move and walls: pawns and side in
/// one word, mixed with the two wall words under odd multipliers and folded.
pub open spec fn signature(b: Board) -> u32 {
    let side = match b.side_to_move {
        Player::One => 0u64,
        Player::Two => 1u64,
    };
    let p = ((b.pawns[0].0 as u64) << 21) | ((b.pawns[0].1 as u64) << 14) | ((b.pawns[1].0 as u64)
        << 7) | (b.pawns[1].1 as u64) | (side << 28);
    let x = b.horizontal_walls.wrapping_mul(0x9E37_79B9_7F4A_7C15)
        ^ b.vertical_walls.wrapping_mul(0xC2B2_AE3D_27D4_EB4F) ^ (p << 32);
    ((x >> 32) as u32) ^ (x as u32)
}

/// `back` is the position that taking back the saved move leads to from `after`.
pub open spec fn taken_back(after: Board, undo: Undo, back: Board) -> bool {
    let side = 1 - after.side_to_move.index_spec();
    &&& back.side_to_move == after.side_to_move.opposite_spec()
    &&& back.move_number == after.move_number - (if after.side_to_move == Player::One {
        1int
    } else {
        0int
    })
    &&& back.hash == undo.hash
    &&& back.verify == undo.verify
    &&& match undo.mv {
        Move::Pawn { .. } => {
            &&& back.pawns@ == after.pawns@.update(side, undo.pawn_from)
            &&& back.walls_remaining == after.walls_remaining
            &&& back.horizontal_walls == after.horizontal_walls
            &&& back.vertical_walls == after.vertical_walls
        },
        Move::Wall { row, col, orientation } => {
            let lifted = after.with_wall(row as int, col as int, orientation, false);
            &&& back.pawns == after.pawns
            &&& back.walls_remaining@ == after.walls_remaining@.update(
                side,
                (after.walls_remaining[side] + 1) as u8,
            )
            &&& back.horizontal_walls == lifted.horizontal_walls
            &&& back.vertical_walls == lifted.vertical_walls
        },
    }
}

impl Board {
    /// The wall word of an orientation.
    pub open spec fn walls(self, orientation: WallOrientation) -> u64 {
        match orientation {
            WallOrientation::Horizontal => self.horizontal_walls,
            WallOrientation::Vertical => self.vertical_walls,
        }
    }

    /// The board with one wall added or removed.
    pub open spec fn with_wall(
        self,
        row: int,
        col: int,
        orientation: WallOrientation,
        on: bool,
    ) -> Board {
        match orientation {
            WallOrientation::Horizontal => Board {
                horizontal_walls: with_slot(self.horizontal_walls, row, col, on),
                ..self
            },
            WallOrientation::Vertical => Board {
                vertical_walls: with_slot(self.vertical_walls, row, col, on),
                ..self
            },
        }
    }

    /// Both pawns stand on the board.
    pub open spec fn wf(self) -> bool {
        self.pawns[0].0 < 9 && self.pawns[0].1 < 9 && self.pawns[1].0 < 9 && self.pawns[1].1 < 9
    }

    /// The cached key and signature are those of the position.
    pub open spec fn keys_current(self) -> bool {
        self.hash == board_key(self) && self.verify == signature(self)
    }

    /// `mv` can be carried out: a wall names a slot of the grid and its owner
    /// has one left, and the move counter does not run over.
    pub open spec fn playable(self, mv: Move) -> bool {
        &&& self.side_to_move == Player::Two ==> self.move_number < u32::MAX
        &&& mv matches Move::Wall { row, col, .. } ==> row < 8 && col < 8
            && self.walls_remaining[self.side_to_move.index_spec()] > 0
    }

    /// `after` is the position that `mv` leads to from `self`.
    pub open spec fn leads_to(self, mv: Move, after: Board) -> bool {
        let side = self.side_to_move.index_spec();
        &&& after.side_to_move == self.side_to_move.opposite_spec()
        &&& after.move_number == self.move_number + (if self.side_to_move == Player::Two {
            1int
        } else {
            0int
        })
        &&& after.verify == signature(after)
        &&& match mv {
            Move::Pawn { row, col } => {
                &&& after.pawns@ == self.pawns@.update(side, (row, col))
                &&& after.walls_remaining == self.walls_remaining
                &&& after.horizontal_walls == self.horizontal_walls
                &&& after.vertical_walls == self.vertical_walls
                &&& after.hash == self.hash ^ pawn_delta(side, self.pawns[side], (row, col))
            },
            Move::Wall { row, col, orientation } => {
                let placed = self.with_wall(row as int, col as int, orientation, true);
                &&& after.pawns == self.pawns
                &&& after.walls_remaining@ == self.walls_remaining@.update(
                    side,
                    (self.walls_remaining[side] - 1) as u8,
                )
                &&& after.horizontal_walls == placed.horizontal_walls
                &&& after.vertical_walls == placed.vertical_walls
                &&& after.hash == self.hash ^ wall_delta_key(
                    orientation,
                    row as int,
                    col as int,
                    side,
                    self.walls_remaining[side] as int,
                )
            },
        }
    }

    /// The player who has reached the far side, player one first.
    pub open spec fn winner(self) -> Option<Player> {
        if self.pawns[0].0 == 8 {
            Some(Player::One)
        } else if self.pawns[1].0 == 0 {
            Some(Player::Two)
        } else {
            None
        }
    }

    /// Signature for verifying hash-table hits: the cached value.
    #[inline]
    pub fn tt_verify(&self) -> (r: u32)
        ensures
            r == self.verify,
    {
        self.verify
    }

    /// Computes the signature from scratch.
    pub fn compute_verify(&self) -> (r: u32)
        ensures
            r == signature(*self),
    {
        let side: u64 = match self.side_to_move {
            Player::One => 0,
            Player::Two => 1,
        };
        let p: u64 = ((self.pawns[0].0 as u64) << 21) | ((self.pawns[0].1 as u64) << 14) | ((
        self.pawns[1].0 as u64) << 7) | (self.pawns[1].1 as u64) | (side << 28);
        let x: u64 = self.horizontal_walls.wrapping_mul(0x9E37_79B9_7F4A_7C15)
            ^ self.vertical_walls.wrapping_mul(0xC2B2_AE3D_27D4_EB4F) ^ (p << 32);
        #[verifier::truncate]
        let low: u32 = x as u32;
        ((x >> 32) as u32) ^ low
    }

    /// The starting position.
    pub fn new() -> (r: Self)
        ensures
            r.pawns@ == seq![(0u8, 4u8), (8u8, 4u8)],
            r.walls_remaining@ == seq![10u8, 10u8],
            r.horizontal_walls == 0,
            r.vertical_walls == 0,
            r.side_to_move == Player::One,
            r.move_number == 1,
            r.keys_current(),
            r.wf(),
    {
        let mut board: Board = Board {
            pawns: [(0, 4), (8, 4)],
            walls_remaining: [10, 10],
            horizontal_walls: 0,
            vertical_walls: 0,
            side_to_move: Player::One,
            move_number: 1,
            hash: 0,
            verify: 0,
        };
        board.hash = hash_board(&board);
        board.verify = board.compute_verify();
        board
    }

    /// Where the player's pawn stands.
    #[inline]
    pub fn pawn(&self, player: Player) -> (r: (Row, Column))
        ensures
            r == self.pawns[player.index_spec()],
    {
        self.pawns[player.index()]
    }

    /// The player to move.
    #[inline]
    pub fn side(&self) -> (r: Player)
        ensures
            r == self.side_to_move,
    {
        self.side_to_move
    }

    /// The letter of a column: `a` for column 0.
    pub fn column_char(col: Column) -> (r: char)
        requires
            col <= 158,
        ensures
            r as int == 97 + col,
    {
        (97u8 + col) as char
    }

    /// Algebraic name of a square: the column letter, then the row counted from one.
    pub fn format_square(row: Row, col: Column) -> (r: String)
        requires
            row < 255,
            col <= 158,
        ensures
            r@ == seq![(97 + col) as char] + decimal((row + 1) as nat),
    {
        let mut s: String = String::new();
        s.push(Self::column_char(col));
        push_decimal(&mut s, row as u64 + 1);
        assert(s@ =~= seq![(97 + col) as char] + decimal((row + 1) as nat));
        s
    }

    /// The winner, if a pawn has reached its far side.
    pub fn is_terminal(&self) -> (r: Option<Player>)
        ensures
            r == self.winner(),
    {
        if self.pawns[0].0 == 8 {
            return Some(Player::One);
        }
        if self.pawns[1].0 == 0 {
            return Some(Player::Two);
        }
        None
    }

    /// Plays `mv` in place; pair with `unmake_move`.
    pub fn make_move(&mut self, mv: Move) -> (undo: Undo)
        requires
            old(self).playable(mv),
        ensures
            old(self).leads_to(mv, *final(self)),
            undo.mv == mv,
            undo.pawn_from == old(self).pawns[old(self).side_to_move.index_spec()],
            undo.hash == old(self).hash,
            undo.verify == old(self).verify,
    {
        let side: usize = self.side_to_move.index();
        let undo: Undo = Undo {
            mv,
            pawn_from: self.pawns[side],
            hash: self.hash,
            verify: self.verify,
        };
        match mv {
            Move::Pawn { row, col } => {
                self.hash = self.hash ^ pawn_move_delta(side, undo.pawn_from, (row, col));
                self.pawns[side] = (row, col);
            },
            Move::Wall { row, col, orientation } => {
                self.hash = self.hash ^ wall_move_delta(
                    orientation,
                    row,
                    col,
                    side,
                    self.walls_remaining[side],
                );
                set_wall(self, row, col, orientation, true);
                self.walls_remaining[side] = self.walls_remaining[side] - 1;
            },
        }
        self.side_to_move = self.side_to_move.opposite();
        if self.side_to_move == Player::One {
            self.move_number = self.move_number + 1;
        }
        self.verify = self.compute_verify();
        undo
    }

    /// Takes back the move that `undo` was saved for.
    pub fn unmake_move(&mut self, undo: Undo)
        requires
            old(self).side_to_move == Player::One ==> old(self).move_number > 0,
            undo.mv matches Move::Wall { row, col, .. } ==> row < 8 && col < 8
                && old(self).walls_remaining[1 - old(self).side_to_move.index_spec()] < 255,
        ensures
            taken_back(*old(self), undo, *final(self)),
    {
        if self.side_to_move == Player::One {
            self.move_number = self.move_number - 1;
        }
        self.side_to_move = self.side_to_move.opposite();
        let side: usize = self.side_to_move.index();
        match undo.mv {
            Move::Pawn { .. } => {
                self.pawns[side] = undo.pawn_from;
            },
            Move::Wall { row, col, orientation } => {
                self.walls_remaining[side] = self.walls_remaining[side] + 1;
                set_wall(self, row, col, orientation, false);
            },
        }
        self.hash = undo.hash;
        self.verify = undo.verify;
    }

    /// Plays `mv`; it cannot be taken back.
    pub fn apply_move(&mut self, mv: Move)
        requires
            old(self).playable(mv),
        ensures
            old(self).leads_to(mv, *final(self)),
    {
        let _ = self.make_move(mv);
    }

    /// The move that an algebraic text names, where it names one: a column
    /// letter, a row digit counted from one, and `h` or `v` for a wall.
    pub open spec fn algebraic_move(bytes: Seq<u8>) -> Option<Move> {
        if bytes.len() < 2 || bytes[0] < 97 || bytes[1] < 49 {
            None
        } else {
            let col = (bytes[0] - 97) as u8;
            let row = (bytes[1] - 49) as u8;
            if bytes.len() == 2 {
                Some(Move::Pawn { row, col })
            } else if bytes[2] == 104 {
                Some(Move::Wall { row, col, orientation: WallOrientation::Horizontal })
            } else if bytes[2] == 118 {
                Some(Move::Wall { row, col, orientation: WallOrientation::Vertical })
            } else {
                None
            }
        }
    }

    /// Plays the move that `text` names.
    pub fn apply_algebraic(&mut self, text: &str)
        requires
            Self::algebraic_move(text.spec_bytes()) is Some,
            old(self).playable(Self::algebraic_move(text.spec_bytes())->0),
        ensures
            old(self).leads_to(Self::algebraic_move(text.spec_bytes())->0, *final(self)),
    {
        let bytes: &[u8] = text.as_bytes();
        let col: u8 = bytes[0] - 97u8;
        let row: u8 = bytes[1] - 48u8 - 1;
        let mv: Move = if bytes.len() > 2 {
            let orientation: WallOrientation = if bytes[2] == 104u8 {
                WallOrientation::Horizontal
            } else {
                WallOrientation::Vertical
            };
            Move::Wall { row, col, orientation }
        } else {
            Move::Pawn { row, col }
        };
        let _ = self.make_move(mv);
    }
}

impl Default for Board {
    fn default() -> (r: Self)
        ensures
            r.pawns@ == seq![(0u8, 4u8), (8u8, 4u8)],
            r.walls_remaining@ == seq![10u8, 10u8],
            r.horizontal_walls == 0,
            r.vertical_walls == 0,
            r.side_to_move == Player::One,
            r.move_number == 1,
            r.keys_current(),
            r.wf(),
    {
        Self::new()
    }
}

/// Playing a move keeps the cached key and signature current, as long as a
/// wall goes into an empty slot.
pub proof fn lemma_make_keeps_keys(before: Board, mv: Move, after: Board)
    requires
        before.keys_current(),
        before.playable(mv),
        before.leads_to(mv, after),
        mv matches Move::Wall { row, col, orientation } ==> !slot(
            before.walls(orientation),
            row as int,
            col as int,
        ),
    ensures
        after.keys_current(),
{
    let side = before.side_to_move.index_spec();
    match mv {
        Move::Pawn { row, col } => lemma_pawn_delta(before, after, side, (row, col)),
        Move::Wall { row, col, orientation } => lemma_wall_delta(
            before,
            after,
            side,
            row as int,
            col as int,
            orientation,
        ),
    }
}

/// Taking back a move restores the board and its keys, as long as a wall went
/// into an empty slot.
pub proof fn lemma_unmake_restores(before: Board, mv: Move, after: Board, undo: Undo, back: Board)
    requires
        before.playable(mv),
        before.leads_to(mv, after),
        undo.mv == mv,
        undo.pawn_from == before.pawns[before.side_to_move.index_spec()],
        undo.hash == before.hash,
        undo.verify == before.verify,
        taken_back(after, undo, back),
        mv matches Move::Wall { row, col, orientation } ==> !slot(
            before.walls(orientation),
            row as int,
            col as int,
        ),
    ensures
        back == before,
{
    match mv {
        Move::Pawn { .. } => {
            assert(back.pawns@ =~= before.pawns@);
            assert(back.pawns =~= before.pawns);
        },
        Move::Wall { row, col, orientation } => {
            assert(back.walls_remaining@ =~= before.walls_remaining@);
            assert(back.walls_remaining =~= before.walls_remaining);
            let m = before.walls(orientation);
            lemma_set_clear(m, row as int, col as int);
        },
    }
}

/// Setting an empty slot and clearing it again gives the word back.
pub proof fn lemma_set_clear(m: u64, r: int, c: int)
    requires
        0 <= r < 8,
        0 <= c < 8,
        !slot(m, r, c),
    ensures
        with_slot(with_slot(m, r, c, true), r, c, false) == m,
{
    let n = with_slot(with_slot(m, r, c, true), r, c, false);
    assert forall|i: int| 0 <= i < 64 implies bit64(n, i) == bit64(m, i) by {
        let r2 = i / 8;
        let c2 = i % 8;
        lemma_with_slot(m, r, c, true, r2, c2);
        lemma_with_slot(with_slot(m, r, c, true), r, c, false, r2, c2);
        assert(r2 * 8 + c2 == i);
    }
    lemma_ext64(n, m);
}

} // verus!
