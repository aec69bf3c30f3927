//! Incremental 64-bit position keys.
//!
//! A position's key is the exclusive or of one word per pawn square, wall,
//! wall count and side to move. The words come from a mixing function instead
//! of a table, so the key of a position is the same in every process.

use vstd::prelude::*;

use crate::position::board::{Board, Player, WallOrientation};
use crate::util::bits::bit64;
use crate::util::bits::{lemma_bits64, lemma_one64};
use crate::util::grid::{slot, with_slot};

verus! {

/// Scrambles a word: distinct small inputs give unrelated outputs.
pub open spec fn mix_spec(x: u64) -> u64 {
    let a = x.wrapping_add(0x9E37_79B9_7F4A_7C15);
    let b = (a ^ (a >> 30)).wrapping_mul(0xBF58_476D_1CE4_E5B9);
    let c = (b ^ (b >> 27)).wrapping_mul(0x94D0_49BB_1331_11EB);
    c ^ (c >> 31)
}

/// [`mix_spec`].
#[inline]
pub fn mix(x: u64) -> (r: u64)
    ensures
        r == mix_spec(x),
{
    let a: u64 = x.wrapping_add(0x9E37_79B9_7F4A_7C15);
    let b: u64 = (a ^ (a >> 30)).wrapping_mul(0xBF58_476D_1CE4_E5B9);
    let c: u64 = (b ^ (b >> 27)).wrapping_mul(0x94D0_49BB_1331_11EB);
    c ^ (c >> 31)
}

/// Key word of a pawn of `side` on square `(row, col)`.
pub open spec fn pawn_key(side: int, row: int, col: int) -> u64 {
    mix_spec((0x1_0000 + side * 0x4000 + row * 64 + col) as u64)
}

/// Key word of a wall in slot number `i`.
pub open spec fn wall_key(orientation: WallOrientation, i: int) -> u64 {
    match orientation {
        WallOrientation::Horizontal => mix_spec((0x2_0000 + i) as u64),
        WallOrientation::Vertical => mix_spec((0x2_0100 + i) as u64),
    }
}

/// Key word of `side` holding `n` walls.
pub open spec fn count_key(side: int, n: int) -> u64 {
    mix_spec((0x3_0000 + side * 0x100 + n) as u64)
}

/// Key word of player two being on turn.
pub open spec fn turn_key() -> u64 {
    mix_spec(0x4_0000)
}

/// Exclusive or of the key words of the walls of `m` in slots `0..n`.
pub open spec fn walls_key(orientation: WallOrientation, m: u64, n: int) -> u64
    decreases n,
{
    if n <= 0 {
        0
    } else if bit64(m, n - 1) {
        walls_key(orientation, m, n - 1) ^ wall_key(orientation, n - 1)
    } else {
        walls_key(orientation, m, n - 1)
    }
}

/// The key of a position.
pub open spec fn board_key(b: Board) -> u64 {
    let side_part = match b.side_to_move {
        Player::One => 0u64,
        Player::Two => turn_key(),
    };
    pawn_key(0, b.pawns[0].0 as int, b.pawns[0].1 as int) ^ pawn_key(
        1,
        b.pawns[1].0 as int,
        b.pawns[1].1 as int,
    ) ^ walls_key(WallOrientation::Horizontal, b.horizontal_walls, 64) ^ walls_key(
        WallOrientation::Vertical,
        b.vertical_walls,
        64,
    ) ^ count_key(0, b.walls_remaining[0] as int) ^ count_key(1, b.walls_remaining[1] as int)
        ^ side_part
}

fn pawn_word(side: usize, at: (u8, u8)) -> (r: u64)
    requires
        side < 2,
    ensures
        r == pawn_key(side as int, at.0 as int, at.1 as int),
{
    mix(0x1_0000 + side as u64 * 0x4000 + at.0 as u64 * 64 + at.1 as u64)
}

fn wall_word(orientation: WallOrientation, i: u64) -> (r: u64)
    requires
        i < 64,
    ensures
        r == wall_key(orientation, i as int),
{
    match orientation {
        WallOrientation::Horizontal => mix(0x2_0000 + i),
        WallOrientation::Vertical => mix(0x2_0100 + i),
    }
}

fn count_word(side: usize, n: u8) -> (r: u64)
    requires
        side < 2,
    ensures
        r == count_key(side as int, n as int),
{
    mix(0x3_0000 + side as u64 * 0x100 + n as u64)
}

fn walls_word(orientation: WallOrientation, m: u64) -> (r: u64)
    ensures
        r == walls_key(orientation, m, 64),
{
    let mut r: u64 = 0;
    let mut i: u64 = 0;
    while i < 64
        invariant
            i <= 64,
            r == walls_key(orientation, m, i as int),
        decreases 64 - i,
    {
        if (m >> i) & 1 == 1 {
            r = r ^ wall_word(orientation, i);
        }
        i = i + 1;
    }
    r
}

/// The key of a position, computed from scratch.
pub fn hash_board(b: &Board) -> (r: u64)
    ensures
        r == board_key(*b),
{
    let side_part: u64 = match b.side_to_move {
        Player::One => 0,
        Player::Two => mix(0x4_0000),
    };
    pawn_word(0, b.pawns[0]) ^ pawn_word(1, b.pawns[1]) ^ walls_word(
        WallOrientation::Horizontal,
        b.horizontal_walls,
    ) ^ walls_word(WallOrientation::Vertical, b.vertical_walls) ^ count_word(
        0,
        b.walls_remaining[0],
    ) ^ count_word(1, b.walls_remaining[1]) ^ side_part
}

/// What a pawn move changes in the key.
pub open spec fn pawn_delta(side: int, from: (u8, u8), to: (u8, u8)) -> u64 {
    pawn_key(side, from.0 as int, from.1 as int) ^ pawn_key(side, to.0 as int, to.1 as int)
        ^ turn_key()
}

/// What placing a wall changes in the key; `left` is the count before.
pub open spec fn wall_delta_key(
    orientation: WallOrientation,
    row: int,
    col: int,
    side: int,
    left: int,
) -> u64 {
    wall_key(orientation, row * 8 + col) ^ count_key(side, left) ^ count_key(side, left - 1)
        ^ turn_key()
}

/// [`pawn_delta`].
pub fn pawn_move_delta(side: usize, from: (u8, u8), to: (u8, u8)) -> (r: u64)
    requires
        side < 2,
    ensures
        r == pawn_delta(side as int, from, to),
{
    pawn_word(side, from) ^ pawn_word(side, to) ^ mix(0x4_0000)
}

/// [`wall_delta_key`].
pub fn wall_move_delta(
    orientation: WallOrientation,
    row: u8,
    col: u8,
    side: usize,
    walls_left: u8,
) -> (r: u64)
    requires
        row < 8,
        col < 8,
        side < 2,
        walls_left > 0,
    ensures
        r == wall_delta_key(orientation, row as int, col as int, side as int, walls_left as int),
{
    wall_word(orientation, row as u64 * 8 + col as u64) ^ count_word(side, walls_left)
        ^ count_word(side, walls_left - 1) ^ mix(0x4_0000)
}

proof fn bv_xor(a: u64, b: u64, c: u64, d: u64, e: u64, f: u64, g: u64, x: u64, y: u64, t: u64)
    by (bit_vector)
    ensures
        0u64 ^ a == a,
        t ^ t == 0,
        (a ^ x) ^ y == (a ^ y) ^ x,
        // one pawn moves
        (a ^ b ^ c ^ d ^ e ^ f ^ g) ^ (a ^ x ^ t) == x ^ b ^ c ^ d ^ e ^ f ^ (g ^ t),
        (a ^ b ^ c ^ d ^ e ^ f ^ g) ^ (b ^ x ^ t) == a ^ x ^ c ^ d ^ e ^ f ^ (g ^ t),
        // a wall appears and one count changes
        (a ^ b ^ c ^ d ^ e ^ f ^ g) ^ (x ^ e ^ y ^ t) == a ^ b ^ (c ^ x) ^ d ^ y ^ f ^ (g ^ t),
        (a ^ b ^ c ^ d ^ e ^ f ^ g) ^ (x ^ f ^ y ^ t) == a ^ b ^ (c ^ x) ^ d ^ e ^ y ^ (g ^ t),
        (a ^ b ^ c ^ d ^ e ^ f ^ g) ^ (x ^ e ^ y ^ t) == a ^ b ^ c ^ (d ^ x) ^ y ^ f ^ (g ^ t),
        (a ^ b ^ c ^ d ^ e ^ f ^ g) ^ (x ^ f ^ y ^ t) == a ^ b ^ c ^ (d ^ x) ^ e ^ y ^ (g ^ t),
{
}

/// Adding a wall that was absent adds its key word.
proof fn lemma_walls_key_set(orientation: WallOrientation, m: u64, r: int, c: int, n: int)
    requires
        0 <= r < 8,
        0 <= c < 8,
        !slot(m, r, c),
        0 <= n <= 64,
    ensures
        walls_key(orientation, with_slot(m, r, c, true), n) == (if r * 8 + c < n {
            walls_key(orientation, m, n) ^ wall_key(orientation, r * 8 + c)
        } else {
            walls_key(orientation, m, n)
        }),
    decreases n,
{
    if n > 0 {
        lemma_walls_key_set(orientation, m, r, c, n - 1);
        let k = r * 8 + c;
        let b = 1u64 << (k as u64);
        lemma_one64(k, n - 1);
        lemma_bits64(m, b, n - 1);
        bv_xor(
            walls_key(orientation, m, n - 1),
            0,
            0,
            0,
            0,
            0,
            0,
            wall_key(orientation, n - 1),
            wall_key(orientation, k),
            0,
        );
    }
}

/// The key after a pawn move is the key before it with [`pawn_delta`] applied.
pub proof fn lemma_pawn_delta(before: Board, after: Board, side: int, to: (u8, u8))
    requires
        side == before.side_to_move.index_spec(),
        after.side_to_move == before.side_to_move.opposite_spec(),
        after.pawns@ == before.pawns@.update(side, to),
        after.walls_remaining == before.walls_remaining,
        after.horizontal_walls == before.horizontal_walls,
        after.vertical_walls == before.vertical_walls,
    ensures
        board_key(after) == board_key(before) ^ pawn_delta(side, before.pawns[side], to),
{
    let g = match before.side_to_move {
        Player::One => 0u64,
        Player::Two => turn_key(),
    };
    bv_xor(
        pawn_key(0, before.pawns[0].0 as int, before.pawns[0].1 as int),
        pawn_key(1, before.pawns[1].0 as int, before.pawns[1].1 as int),
        walls_key(WallOrientation::Horizontal, before.horizontal_walls, 64),
        walls_key(WallOrientation::Vertical, before.vertical_walls, 64),
        count_key(0, before.walls_remaining[0] as int),
        count_key(1, before.walls_remaining[1] as int),
        g,
        pawn_key(side, to.0 as int, to.1 as int),
        0,
        turn_key(),
    );
    bv_xor(turn_key(), 0, 0, 0, 0, 0, 0, 0, 0, 0);
    assert(after.pawns[0] == after.pawns@[0]);
    assert(after.pawns[1] == after.pawns@[1]);
}

/// The key after a wall goes up in an empty slot is the key before it with
/// [`wall_delta_key`] applied.
pub proof fn lemma_wall_delta(
    before: Board,
    after: Board,
    side: int,
    row: int,
    col: int,
    orientation: WallOrientation,
)
    requires
        side == before.side_to_move.index_spec(),
        after.side_to_move == before.side_to_move.opposite_spec(),
        after.pawns == before.pawns,
        0 <= row < 8,
        0 <= col < 8,
        !slot(before.walls(orientation), row, col),
        before.walls_remaining[side] > 0,
        after.walls_remaining@ == before.walls_remaining@.update(
            side,
            (before.walls_remaining[side] - 1) as u8,
        ),
        after.horizontal_walls == before.with_wall(row, col, orientation, true).horizontal_walls,
        after.vertical_walls == before.with_wall(row, col, orientation, true).vertical_walls,
    ensures
        board_key(after) == board_key(before) ^ wall_delta_key(
            orientation,
            row,
            col,
            side,
            before.walls_remaining[side] as int,
        ),
{
    let g = match before.side_to_move {
        Player::One => 0u64,
        Player::Two => turn_key(),
    };
    lemma_walls_key_set(orientation, before.walls(orientation), row, col, 64);
    bv_xor(
        pawn_key(0, before.pawns[0].0 as int, before.pawns[0].1 as int),
        pawn_key(1, before.pawns[1].0 as int, before.pawns[1].1 as int),
        walls_key(WallOrientation::Horizontal, before.horizontal_walls, 64),
        walls_key(WallOrientation::Vertical, before.vertical_walls, 64),
        count_key(0, before.walls_remaining[0] as int),
        count_key(1, before.walls_remaining[1] as int),
        g,
        wall_key(orientation, row * 8 + col),
        count_key(side, before.walls_remaining[side] - 1),
        turn_key(),
    );
    bv_xor(turn_key(), 0, 0, 0, 0, 0, 0, 0, 0, 0);
    assert(after.walls_remaining[0] == after.walls_remaining@[0]);
    assert(after.walls_remaining[1] == after.walls_remaining@[1]);
}

} // verus!
