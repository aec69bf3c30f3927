//! The 9x9 pawn grid and the 8x8 grid of wall slots.
//!
//! Slot `(r, c)` is the corner shared by squares `(r, c)`, `(r, c + 1)`,
//! `(r + 1, c)` and `(r + 1, c + 1)`. A horizontal wall there blocks the two
//! steps between rows `r` and `r + 1`, a vertical one the two steps between
//! columns `c` and `c + 1`.

use vstd::prelude::*;

use crate::position::board::{Board, Player, WallOrientation};
use crate::util::bits::bit64;
use crate::util::bits::{lemma_bits64, lemma_one64};

verus! {

/// Distance, in bits, between vertically adjacent squares of a flood word.
pub const FLOOD_STRIDE: u128 = 9;

/// The wall word `m` holds a wall at slot `(r, c)`.
pub open spec fn slot(m: u64, r: int, c: int) -> bool {
    0 <= r < 8 && 0 <= c < 8 && bit64(m, r * 8 + c)
}

/// No horizontal wall lies between `(r, c)` and `(r + 1, c)`.
pub open spec fn h_gap(h: u64, r: int, c: int) -> bool {
    !slot(h, r, c) && !slot(h, r, c - 1)
}

/// No vertical wall lies between `(r, c)` and `(r, c + 1)`.
pub open spec fn v_gap(v: u64, r: int, c: int) -> bool {
    !slot(v, r, c) && !slot(v, r - 1, c)
}

/// A pawn on `(r, c)` can step by `(dr, dc)`: the offset is one of the four
/// unit steps, it stays on the board, and no wall is in the way.
pub open spec fn open_step(h: u64, v: u64, r: int, c: int, dr: int, dc: int) -> bool {
    &&& 0 <= r + dr <= 8
    &&& 0 <= c + dc <= 8
    &&& {
        ||| (dr == 1 && dc == 0 && h_gap(h, r, c))
        ||| (dr == -1 && dc == 0 && h_gap(h, r - 1, c))
        ||| (dr == 0 && dc == 1 && v_gap(v, r, c))
        ||| (dr == 0 && dc == -1 && v_gap(v, r, c - 1))
    }
}

/// The wall word with the wall at slot `(r, c)` added or removed.
pub open spec fn with_slot(m: u64, r: int, c: int, on: bool) -> u64 {
    if on {
        m | (1u64 << ((r * 8 + c) as u64))
    } else {
        m & !(1u64 << ((r * 8 + c) as u64))
    }
}

/// Adding or removing one wall changes that slot and no other.
pub proof fn lemma_with_slot(m: u64, r: int, c: int, on: bool, r2: int, c2: int)
    requires
        0 <= r < 8,
        0 <= c < 8,
    ensures
        slot(with_slot(m, r, c, on), r2, c2) == (if r2 == r && c2 == c {
            on
        } else {
            slot(m, r2, c2)
        }),
{
    if 0 <= r2 < 8 && 0 <= c2 < 8 {
        let k = r * 8 + c;
        let i = r2 * 8 + c2;
        let b = 1u64 << (k as u64);
        lemma_one64(k, i);
        lemma_bits64(m, b, i);
        lemma_bits64(b, 0, i);
        lemma_bits64(m, !b, i);
    }
}

/// Whether the wall word holds a wall at the slot; no slot outside the grid does.
#[inline]
pub fn slot_set(m: u64, row: u8, col: u8) -> (r: bool)
    ensures
        r == slot(m, row as int, col as int),
{
    if row >= 8 || col >= 8 {
        return false;
    }
    let bit: u64 = row as u64 * 8 + col as u64;
    (m >> bit) & 1 == 1
}

/// [`open_step`] on wall words.
#[inline]
pub fn step_open(h: u64, v: u64, row: u8, col: u8, dr: i8, dc: i8) -> (r: bool)
    ensures
        r == open_step(h, v, row as int, col as int, dr as int, dc as int),
{
    let nr: i16 = row as i16 + dr as i16;
    let nc: i16 = col as i16 + dc as i16;
    if nr < 0 || nr > 8 || nc < 0 || nc > 8 {
        return false;
    }
    if dr == 1 && dc == 0 {
        !slot_set(h, row, col) && (col == 0 || !slot_set(h, row, col - 1))
    } else if dr == -1 && dc == 0 {
        !slot_set(h, nr as u8, col) && (col == 0 || !slot_set(h, nr as u8, col - 1))
    } else if dr == 0 && dc == 1 {
        !slot_set(v, row, col) && (row == 0 || !slot_set(v, row - 1, col))
    } else if dr == 0 && dc == -1 {
        !slot_set(v, row, nc as u8) && (row == 0 || !slot_set(v, row - 1, nc as u8))
    } else {
        false
    }
}

/// Whether a pawn on `(row, col)` can step by `(dr, dc)`.
#[inline]
pub fn can_step(board: &Board, row: u8, col: u8, dr: i8, dc: i8) -> (r: bool)
    ensures
        r == open_step(
            board.horizontal_walls,
            board.vertical_walls,
            row as int,
            col as int,
            dr as int,
            dc as int,
        ),
{
    step_open(board.horizontal_walls, board.vertical_walls, row, col, dr, dc)
}

/// Whether a wall stands at the slot.
#[inline]
pub fn has_wall(board: &Board, row: u8, col: u8, orientation: WallOrientation) -> (r: bool)
    ensures
        r == slot(board.walls(orientation), row as int, col as int),
{
    match orientation {
        WallOrientation::Horizontal => slot_set(board.horizontal_walls, row, col),
        WallOrientation::Vertical => slot_set(board.vertical_walls, row, col),
    }
}

/// Adds or removes the wall at a slot; hash, wall counts and turn stay as they are.
pub fn set_wall(board: &mut Board, row: u8, col: u8, orientation: WallOrientation, on: bool)
    requires
        row < 8,
        col < 8,
    ensures
        *final(board) == old(board).with_wall(row as int, col as int, orientation, on),
{
    let bit: u64 = 1u64 << (row as u64 * 8 + col as u64);
    match orientation {
        WallOrientation::Horizontal => {
            if on {
                board.horizontal_walls = board.horizontal_walls | bit;
            } else {
                board.horizontal_walls = board.horizontal_walls & !bit;
            }
        },
        WallOrientation::Vertical => {
            if on {
                board.vertical_walls = board.vertical_walls | bit;
            } else {
                board.vertical_walls = board.vertical_walls & !bit;
            }
        },
    }
}

/// The number of a square.
#[inline]
pub fn square_index(row: u8, col: u8) -> (sq: u8)
    requires
        row * 9 + col <= 255,
    ensures
        sq == row * 9 + col,
{
    row * 9 + col
}

/// The row and column of a square number.
#[inline]
pub fn unpack_square(sq: u8) -> (rc: (u8, u8))
    ensures
        rc.0 == sq / 9,
        rc.1 == sq % 9,
{
    (sq / 9, sq % 9)
}

/// Row `row` is the far side of the board for `player`.
pub open spec fn goal_row(player: Player, row: int) -> bool {
    match player {
        Player::One => row == 8,
        Player::Two => row == 0,
    }
}

/// Whether `row` is the far side of the board for `player`.
#[inline]
pub fn is_goal(player: Player, row: u8) -> (r: bool)
    ensures
        r == goal_row(player, row as int),
{
    match player {
        Player::One => row == 8,
        Player::Two => row == 0,
    }
}

/// The four squares around a wall slot.
pub fn wall_touch_squares(row: u8, col: u8) -> (r: [(u8, u8); 4])
    requires
        row < 255,
        col < 255,
    ensures
        r@ == seq![
            (row, col),
            (row, (col + 1) as u8),
            ((row + 1) as u8, col),
            ((row + 1) as u8, (col + 1) as u8),
        ],
{
    let r: [(u8, u8); 4] = [(row, col), (row, col + 1), (row + 1, col), (row + 1, col + 1)];
    assert(r@ =~= seq![
        (row, col),
        (row, (col + 1) as u8),
        ((row + 1) as u8, col),
        ((row + 1) as u8, (col + 1) as u8),
    ]);
    r
}

/// The flood word that holds one square.
#[inline]
pub fn flood_bit_sq(sq: u8) -> (b: u128)
    requires
        sq < 81,
    ensures
        b == 1u128 << (sq as u128),
{
    1u128 << (sq as u128)
}

/// The square that a bit of a flood word stands for.
#[inline]
pub fn flood_sq_from_bit(bit: u32) -> (sq: Option<u8>)
    ensures
        sq == (if bit < 81 { Some(bit as u8) } else { None::<u8> }),
{
    if bit < 81 {
        Some(bit as u8)
    } else {
        None
    }
}

} // verus!
