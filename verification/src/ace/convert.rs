//! Boards and games of the two row orders.

use vstd::prelude::*;

use crate::ace::game::{
    grid_player, high_half, is_h_wall, is_pawn_move, is_v_wall, key_word, low_half,
    move_orientation, wall_slot, zobrist_key, AceGame, AceState, HistItem,
};
use crate::path::graph::{
    board_steps, goal_dist, goal_squares, has_path, is_dist, lemma_dist_exists, lemma_dist_is,
    pawn_sq, reach, wall_steps, within, Squares,
};
use crate::position::board::{Board, Move, Player, WallOrientation};
use crate::util::bits::{bit64, lemma_bits64, lemma_one64};
use crate::util::grid::{lemma_with_slot, slot, slot_set, with_slot};

verus! {

/// Wall word `f` is `m` with its rows turned round.
pub open spec fn is_flip(m: u64, f: u64) -> bool {
    forall|r: int, c: int|
        0 <= r < 8 && 0 <= c < 8 ==> #[trigger] slot(f, r, c) == slot(m, 7 - r, c)
}

/// Square `sq` with its row turned round.
pub open spec fn flip_sq(sq: int) -> int {
    (8 - sq / 9) * 9 + sq % 9
}

/// Key halves of the walls of `m` in slots `0..n`, kind 2 or 3.
pub open spec fn walls_lo(kind: int, m: u64, n: int) -> u32
    decreases n,
{
    if n <= 0 {
        0
    } else if bit64(m, n - 1) {
        walls_lo(kind, m, n - 1) ^ low_half(key_word(kind, n - 1))
    } else {
        walls_lo(kind, m, n - 1)
    }
}

pub open spec fn walls_hi(kind: int, m: u64, n: int) -> u32
    decreases n,
{
    if n <= 0 {
        0
    } else if bit64(m, n - 1) {
        walls_hi(kind, m, n - 1) ^ high_half(key_word(kind, n - 1))
    } else {
        walls_hi(kind, m, n - 1)
    }
}

/// The low key half of a position.
pub open spec fn position_lo(h: u64, v: u64, p0: int, p1: int, turn: int) -> u32 {
    low_half(key_word(0, p0)) ^ low_half(key_word(1, p1)) ^ walls_lo(2, h, 64) ^ walls_lo(3, v, 64)
        ^ (if turn == 1 {
        low_half(key_word(4, 0))
    } else {
        0
    })
}

/// The high key half of a position.
pub open spec fn position_hi(h: u64, v: u64, p0: int, p1: int, turn: int) -> u32 {
    high_half(key_word(0, p0)) ^ high_half(key_word(1, p1)) ^ walls_hi(2, h, 64) ^ walls_hi(
        3,
        v,
        64,
    ) ^ (if turn == 1 {
        high_half(key_word(4, 0))
    } else {
        0
    })
}

/// The keys of the state are those of its position.
pub open spec fn keys_match(s: AceState) -> bool {
    s.lo == position_lo(s.h, s.v, s.p0, s.p1, s.turn) && s.hi == position_hi(
        s.h,
        s.v,
        s.p0,
        s.p1,
        s.turn,
    )
}

/// `s` is the position of `b`, rows turned round.
pub open spec fn mirrors(b: Board, s: AceState) -> bool {
    &&& s.p0 == (8 - b.pawns[0].0) * 9 + b.pawns[0].1
    &&& s.p1 == (8 - b.pawns[1].0) * 9 + b.pawns[1].1
    &&& s.wl0 == b.walls_remaining[0]
    &&& s.wl1 == b.walls_remaining[1]
    &&& s.turn == b.side_to_move.index_spec()
    &&& is_flip(b.horizontal_walls, s.h)
    &&& is_flip(b.vertical_walls, s.v)
}

/// Board move to move number.
pub open spec fn to_ace(mv: Move) -> i16 {
    match mv {
        Move::Pawn { row, col } => ((8 - row) * 9 + col) as i16,
        Move::Wall { row, col, orientation } => match orientation {
            WallOrientation::Horizontal => (100 + (7 - row) * 8 + col) as i16,
            WallOrientation::Vertical => (200 + (7 - row) * 8 + col) as i16,
        },
    }
}

/// Move number to board move.
pub open spec fn to_board(m: i16) -> Move {
    if m < 100 {
        Move::Pawn { row: (8 - m as int / 9) as u8, col: (m as int % 9) as u8 }
    } else {
        Move::Wall {
            row: (7 - wall_slot(m) / 8) as u8,
            col: (wall_slot(m) % 8) as u8,
            orientation: move_orientation(m),
        }
    }
}

/// A move whose coordinates are on the grid.
pub open spec fn on_grid(mv: Move) -> bool {
    match mv {
        Move::Pawn { row, col } => row < 9 && col < 9,
        Move::Wall { row, col, .. } => row < 8 && col < 8,
    }
}

/// A move number that names a cell or a wall.
pub open spec fn is_ace_move(m: i16) -> bool {
    is_pawn_move(m) || is_h_wall(m) || is_v_wall(m)
}

/// Board move to move number.
pub fn board_move_to_ace(mv: Move) -> (m: i16)
    requires
        on_grid(mv),
    ensures
        m == to_ace(mv),
        is_ace_move(m),
{
    match mv {
        Move::Pawn { row, col } => (8 - row as i16) * 9 + col as i16,
        Move::Wall { row, col, orientation } => {
            let s: i16 = (7 - row as i16) * 8 + col as i16;
            match orientation {
                WallOrientation::Horizontal => 100 + s,
                WallOrientation::Vertical => 200 + s,
            }
        },
    }
}

/// Move number to board move.
pub fn ace_move_to_board(m: i16) -> (mv: Move)
    requires
        is_ace_move(m),
    ensures
        mv == to_board(m),
        on_grid(mv),
{
    if m < 100 {
        Move::Pawn { row: (8 - m / 9) as u8, col: (m % 9) as u8 }
    } else {
        let s: i16 = m % 100;
        let orientation: WallOrientation = if m < 200 {
            WallOrientation::Horizontal
        } else {
            WallOrientation::Vertical
        };
        Move::Wall { row: (7 - s / 8) as u8, col: (s % 8) as u8, orientation }
    }
}

/// The slot of a wall move.
pub proof fn lemma_wall_slot(m: i16)
    ensures
        is_h_wall(m) ==> wall_slot(m) == m - 100,
        is_v_wall(m) ==> wall_slot(m) == m - 200,
{
}

/// Row and column of a cell number, and of a slot number.
pub proof fn lemma_rows(r: int, c: int)
    ensures
        0 <= c < 9 ==> (r * 9 + c) / 9 == r && (r * 9 + c) % 9 == c,
        0 <= c < 8 ==> (r * 8 + c) / 8 == r && (r * 8 + c) % 8 == c,
{
}

/// Moves survive the trip there and back, both ways.
#[verifier::spinoff_prover]
pub proof fn lemma_move_round_trip(mv: Move, m: i16)
    ensures
        on_grid(mv) ==> is_ace_move(to_ace(mv)) && to_board(to_ace(mv)) == mv,
        is_ace_move(m) ==> on_grid(to_board(m)) && to_ace(to_board(m)) == m,
{
    if on_grid(mv) {
        match mv {
            Move::Pawn { row, col } => {
                let x = to_ace(mv) as int;
                assert(x == (8 - row) * 9 + col);
                lemma_rows(8 - row as int, col as int);
            },
            Move::Wall { row, col, orientation } => {
                lemma_wall_slot(to_ace(mv));
                let x = wall_slot(to_ace(mv));
                assert(x == (7 - row) * 8 + col);
                lemma_rows(7 - row as int, col as int);
            },
        }
    }
    if is_ace_move(m) {
        if m < 100 {
            assert(m as int / 9 * 9 + m as int % 9 == m);
        } else {
            lemma_wall_slot(m);
            let s = wall_slot(m);
            assert(s / 8 * 8 + s % 8 == s);
            assert(0 <= s / 8 < 8 && 0 <= s % 8 < 8);
        }
    }
}

/// Turns the rows of a wall word round.
pub fn flip_word(m: u64) -> (f: u64)
    ensures
        is_flip(m, f),
{
    let mut f: u64 = 0;
    let mut s: u64 = 0;
    proof {
        assert forall|i: int| 0 <= i < 64 implies !bit64(0, i) by {
            lemma_bits64(0, 0, i);
        }
    }
    while s < 64
        invariant
            s <= 64,
            forall|i: int|
                0 <= i < 64 ==> #[trigger] bit64(f, i) == (i < s && slot(m, 7 - i / 8, i % 8)),
        decreases 64 - s,
    {
        let row: u8 = (7 - s / 8) as u8;
        let col: u8 = (s % 8) as u8;
        if slot_set(m, row, col) {
            let one: u64 = 1u64 << s;
            proof {
                assert forall|i: int| 0 <= i < 64 implies #[trigger] bit64(f | one, i) == (bit64(
                    f,
                    i,
                ) || i == s) by {
                    lemma_bits64(f, one, i);
                    lemma_one64(s as int, i);
                }
            }
            f = f | one;
        }
        s = s + 1;
    }
    proof {
        assert forall|r: int, c: int| 0 <= r < 8 && 0 <= c < 8 implies #[trigger] slot(f, r, c)
            == slot(m, 7 - r, c) by {
            assert((r * 8 + c) / 8 == r && (r * 8 + c) % 8 == c);
            assert(bit64(f, r * 8 + c) == slot(m, 7 - r, c));
        }
    }
    f
}

/// The game that shows the position of a board, without history.
pub fn ace_from_board(board: &Board) -> (g: AceGame)
    requires
        board.wf(),
    ensures
        g.wf(),
        mirrors(*board, g@),
        keys_match(g@),
        g@.hist == Seq::<HistItem>::empty(),
        g@.last_wall_ply == 0,
        g@.stamp == 0,
{
    let mut g: AceGame = AceGame::new();
    let p0: usize = (8 - board.pawns[0].0 as usize) * 9 + board.pawns[0].1 as usize;
    let p1: usize = (8 - board.pawns[1].0 as usize) * 9 + board.pawns[1].1 as usize;
    let h: u64 = flip_word(board.horizontal_walls);
    let v: u64 = flip_word(board.vertical_walls);
    let turn: usize = board.side_to_move.index();
    let (mut lo, mut hi) = zobrist_key(0, p0 as u64);
    let (bl, bh) = zobrist_key(1, p1 as u64);
    lo = lo ^ bl;
    hi = hi ^ bh;
    let (wl, wh) = walls_key(2, h);
    let (xl, xh) = walls_key(3, v);
    lo = lo ^ wl ^ xl;
    hi = hi ^ wh ^ xh;
    let (mut tl, mut th) = zobrist_key(4, 0);
    if turn != 1 {
        tl = 0;
        th = 0;
    }
    g.pawn = [p0, p1];
    g.wl = [board.walls_remaining[0] as i32, board.walls_remaining[1] as i32];
    g.turn = turn;
    g.hash_lo = lo ^ tl;
    g.hash_hi = hi ^ th;
    g.load_walls(h, v);
    g
}

/// Key halves of the walls of a word.
fn walls_key(kind: u64, m: u64) -> (r: (u32, u32))
    requires
        kind == 2 || kind == 3,
    ensures
        r.0 == walls_lo(kind as int, m, 64),
        r.1 == walls_hi(kind as int, m, 64),
{
    let mut lo: u32 = 0;
    let mut hi: u32 = 0;
    let mut i: u64 = 0;
    while i < 64
        invariant
            i <= 64,
            kind == 2 || kind == 3,
            lo == walls_lo(kind as int, m, i as int),
            hi == walls_hi(kind as int, m, i as int),
        decreases 64 - i,
    {
        if (m >> i) & 1 == 1 {
            let (a, b) = zobrist_key(kind, i);
            lo = lo ^ a;
            hi = hi ^ b;
        }
        i = i + 1;
    }
    (lo, hi)
}

proof fn bv_xor32(a: u32, b: u32, c: u32, d: u32, e: u32, x: u32, t: u32)
    by (bit_vector)
    ensures
        0u32 ^ a == a,
        t ^ t == 0,
        (a ^ x) ^ b == (a ^ b) ^ x,
        (a ^ b ^ c ^ d ^ e) ^ a ^ x ^ t == x ^ b ^ c ^ d ^ (e ^ t),
        (a ^ b ^ c ^ d ^ e) ^ b ^ x ^ t == a ^ x ^ c ^ d ^ (e ^ t),
        (a ^ b ^ c ^ d ^ e) ^ x ^ t == a ^ b ^ (c ^ x) ^ d ^ (e ^ t),
        (a ^ b ^ c ^ d ^ e) ^ x ^ t == a ^ b ^ c ^ (d ^ x) ^ (e ^ t),
{
}

proof fn lemma_walls_key_set(kind: int, m: u64, s: int, n: int)
    requires
        0 <= s < 64,
        !slot(m, s / 8, s % 8),
        0 <= n <= 64,
    ensures
        walls_lo(kind, with_slot(m, s / 8, s % 8, true), n) == (if s < n {
            walls_lo(kind, m, n) ^ low_half(key_word(kind, s))
        } else {
            walls_lo(kind, m, n)
        }),
        walls_hi(kind, with_slot(m, s / 8, s % 8, true), n) == (if s < n {
            walls_hi(kind, m, n) ^ high_half(key_word(kind, s))
        } else {
            walls_hi(kind, m, n)
        }),
    decreases n,
{
    if n > 0 {
        lemma_walls_key_set(kind, m, s, n - 1);
        assert(s / 8 * 8 + s % 8 == s);
        let b = 1u64 << (s as u64);
        lemma_one64(s, n - 1);
        lemma_bits64(m, b, n - 1);
        let x = low_half(key_word(kind, n - 1));
        let y = low_half(key_word(kind, s));
        bv_xor32(walls_lo(kind, m, n - 1), y, 0, 0, 0, x, 0);
        let x2 = high_half(key_word(kind, n - 1));
        let y2 = high_half(key_word(kind, s));
        bv_xor32(walls_hi(kind, m, n - 1), y2, 0, 0, 0, x2, 0);
    }
}

proof fn lemma_no_wall_keys(kind: int, n: int)
    requires
        n <= 64,
    ensures
        walls_lo(kind, 0, n) == 0,
        walls_hi(kind, 0, n) == 0,
    decreases n,
{
    if n > 0 {
        lemma_no_wall_keys(kind, n - 1);
        lemma_bits64(0, 0, n - 1);
    }
}

/// The keys of the start are those of its position.
pub proof fn lemma_start_keys(s: AceState)
    requires
        s.h == 0,
        s.v == 0,
        s.turn == 0,
        s.lo == low_half(key_word(0, s.p0)) ^ low_half(key_word(1, s.p1)),
        s.hi == high_half(key_word(0, s.p0)) ^ high_half(key_word(1, s.p1)),
    ensures
        keys_match(s),
{
    lemma_no_wall_keys(2, 64);
    lemma_no_wall_keys(3, 64);
    bv_xor_none(s.lo);
    bv_xor_none(s.hi);
}

proof fn bv_xor_none(a: u32)
    by (bit_vector)
    ensures
        a ^ 0 ^ 0 ^ 0 == a,
{
}

/// Playing a move keeps the keys those of the position.
pub proof fn lemma_after_keeps_keys(s: AceState, m: i16)
    requires
        s.wf(),
        keys_match(s),
        s.playable(m),
    ensures
        keys_match(s.after(m)),
{
    let a = s.after(m);
    let e = if s.turn == 1 {
        low_half(key_word(4, 0))
    } else {
        0
    };
    let e2 = if s.turn == 1 {
        high_half(key_word(4, 0))
    } else {
        0
    };
    let t = low_half(key_word(4, 0));
    let t2 = high_half(key_word(4, 0));
    let k0 = low_half(key_word(0, s.p0));
    let k1 = low_half(key_word(1, s.p1));
    let l0 = high_half(key_word(0, s.p0));
    let l1 = high_half(key_word(1, s.p1));
    let x = if is_pawn_move(m) {
        key_word(s.turn, m as int)
    } else if is_h_wall(m) {
        key_word(2, wall_slot(m))
    } else {
        key_word(3, wall_slot(m))
    };
    if !is_pawn_move(m) {
        if is_h_wall(m) {
            lemma_walls_key_set(2, s.h, wall_slot(m), 64);
        } else {
            lemma_walls_key_set(3, s.v, wall_slot(m), 64);
        }
    }
    bv_xor32(k0, k1, walls_lo(2, s.h, 64), walls_lo(3, s.v, 64), e, low_half(x), t);
    bv_xor32(l0, l1, walls_hi(2, s.h, 64), walls_hi(3, s.v, 64), e2, high_half(x), t2);
    bv_xor32(t, 0, 0, 0, 0, 0, t);
    bv_xor32(t2, 0, 0, 0, 0, 0, t2);
}

proof fn bv_turn(a: u32, b: u32, c: u32, d: u32, t: u32)
    by (bit_vector)
    ensures
        (a ^ b ^ c ^ d ^ 0u32) ^ t == a ^ b ^ c ^ d ^ t,
        (a ^ b ^ c ^ d ^ t) ^ t == a ^ b ^ c ^ d ^ 0u32,
        (a ^ t) ^ t == a,
{
}

/// Passing keeps the keys those of the position, and passing twice is nothing.
pub proof fn lemma_passed(s: AceState)
    requires
        s.wf(),
    ensures
        s.passed().wf(),
        s.passed().passed() == s,
        keys_match(s) ==> keys_match(s.passed()),
{
    let tlo = low_half(key_word(4, 0));
    let thi = high_half(key_word(4, 0));
    bv_turn(
        low_half(key_word(0, s.p0)),
        low_half(key_word(1, s.p1)),
        walls_lo(2, s.h, 64),
        walls_lo(3, s.v, 64),
        tlo,
    );
    bv_turn(
        high_half(key_word(0, s.p0)),
        high_half(key_word(1, s.p1)),
        walls_hi(2, s.h, 64),
        walls_hi(3, s.v, 64),
        thi,
    );
    bv_turn(s.lo, 0, 0, 0, tlo);
    bv_turn(s.hi, 0, 0, 0, thi);
}

/// Turning rows round commutes with putting a wall up.
pub proof fn lemma_flip_slot(m: u64, f: u64, r: int, c: int)
    requires
        is_flip(m, f),
        0 <= r < 8,
        0 <= c < 8,
    ensures
        is_flip(with_slot(m, r, c, true), with_slot(f, 7 - r, c, true)),
{
    let m2 = with_slot(m, r, c, true);
    let f2 = with_slot(f, 7 - r, c, true);
    assert forall|i: int, j: int| 0 <= i < 8 && 0 <= j < 8 implies #[trigger] slot(f2, i, j)
        == slot(m2, 7 - i, j) by {
        lemma_with_slot(f, 7 - r, c, true, i, j);
        lemma_with_slot(m, r, c, true, 7 - i, j);
        assert(slot(f, i, j) == slot(m, 7 - i, j));
    }
}

/// Playing a move on the board and its number in the game leads to positions
/// that mirror each other.
pub proof fn lemma_mirror_moves(b: Board, mv: Move, after: Board, s: AceState)
    requires
        b.wf(),
        mirrors(b, s),
        s.wf(),
        on_grid(mv),
        b.playable(mv),
        b.leads_to(mv, after),
    ensures
        mirrors(after, s.after(to_ace(mv))),
{
    assert(after.pawns[0] == after.pawns@[0] && after.pawns[1] == after.pawns@[1]);
    assert(b.pawns[0] == b.pawns@[0] && b.pawns[1] == b.pawns@[1]);
    assert(after.walls_remaining[0] == after.walls_remaining@[0] && after.walls_remaining[1]
        == after.walls_remaining@[1]);
    match mv {
        Move::Pawn { row, col } => {
            assert(is_pawn_move(to_ace(mv)));
            lemma_mirror_pawn(b, row, col, after, s);
        },
        Move::Wall { row, col, orientation } => {
            lemma_mirror_wall(b, row, col, orientation, after, s);
        },
    }
}

proof fn lemma_mirror_pawn(b: Board, row: u8, col: u8, after: Board, s: AceState)
    requires
        mirrors(b, s),
        row < 9,
        col < 9,
        after.side_to_move == b.side_to_move.opposite_spec(),
        after.pawns[b.side_to_move.index_spec()] == (row, col),
        after.pawns[1 - b.side_to_move.index_spec()] == b.pawns[1 - b.side_to_move.index_spec()],
        after.walls_remaining == b.walls_remaining,
        after.horizontal_walls == b.horizontal_walls,
        after.vertical_walls == b.vertical_walls,
    ensures
        mirrors(after, s.after(((8 - row) * 9 + col) as i16)),
{
}

#[verifier::spinoff_prover]
#[verifier::rlimit(50)]
proof fn lemma_mirror_wall(
    b: Board,
    row: u8,
    col: u8,
    orientation: WallOrientation,
    after: Board,
    s: AceState,
)
    requires
        mirrors(b, s),
        row < 8,
        col < 8,
        after.side_to_move == b.side_to_move.opposite_spec(),
        after.pawns == b.pawns,
        after.walls_remaining[b.side_to_move.index_spec()]
            == b.walls_remaining[b.side_to_move.index_spec()] - 1,
        after.walls_remaining[1 - b.side_to_move.index_spec()] == b.walls_remaining[1
            - b.side_to_move.index_spec()],
        after.horizontal_walls == b.with_wall(
            row as int,
            col as int,
            orientation,
            true,
        ).horizontal_walls,
        after.vertical_walls == b.with_wall(
            row as int,
            col as int,
            orientation,
            true,
        ).vertical_walls,
    ensures
        mirrors(after, s.after(to_ace(Move::Wall { row, col, orientation }))),
{
    let mv = Move::Wall { row, col, orientation };
    let m = to_ace(mv);
    let x = (7 - row) * 8 + col;
    assert(on_grid(mv));
    lemma_move_round_trip(mv, 0);
    lemma_wall_slot(m);
    lemma_rows(7 - row as int, col as int);
    match orientation {
        WallOrientation::Horizontal => {
            assert(m == 100 + x && is_h_wall(m) && !is_pawn_move(m));
            lemma_flip_slot(b.horizontal_walls, s.h, row as int, col as int);
        },
        WallOrientation::Vertical => {
            assert(m == 200 + x && is_v_wall(m) && !is_h_wall(m) && !is_pawn_move(m));
            lemma_flip_slot(b.vertical_walls, s.v, row as int, col as int);
        },
    }
}

/// Steps of the two row orders correspond.
proof fn lemma_flip_steps(h: u64, v: u64, fh: u64, fv: u64, sq: int, d: int)
    requires
        is_flip(h, fh),
        is_flip(v, fv),
        0 <= sq < 81,
        0 <= d < 4,
    ensures
        wall_steps(h, v)(sq, d) == wall_steps(fh, fv)(
            flip_sq(sq),
            if d == 0 {
                1
            } else if d == 1 {
                0
            } else {
                d
            },
        ),
{
    let r = sq / 9;
    let c = sq % 9;
    let r2 = 8 - r;
    assert(flip_sq(sq) / 9 == r2 && flip_sq(sq) % 9 == c);
    lemma_flip_pair(h, fh, r, c);
    lemma_flip_pair(h, fh, r, c - 1);
    lemma_flip_pair(h, fh, r - 1, c);
    lemma_flip_pair(h, fh, r - 1, c - 1);
    lemma_flip_pair(v, fv, r, c);
    lemma_flip_pair(v, fv, r, c - 1);
    lemma_flip_pair(v, fv, r - 1, c);
    lemma_flip_pair(v, fv, r - 1, c - 1);
}

pub proof fn lemma_flip_pair(m: u64, f: u64, r: int, c: int)
    requires
        is_flip(m, f),
    ensures
        slot(m, r, c) == slot(f, 7 - r, c),
{
    if 0 <= r < 8 && 0 <= c < 8 {
        assert(slot(f, 7 - r, c) == slot(m, 7 - (7 - r), c));
    }
}

/// Reachability of the two row orders corresponds.
proof fn lemma_flip_within(
    h: u64,
    v: u64,
    fh: u64,
    fv: u64,
    src: Squares,
    src2: Squares,
    sq: int,
    n: nat,
)
    requires
        is_flip(h, fh),
        is_flip(v, fv),
        0 <= sq < 81,
        forall|i: int| 0 <= i < 81 ==> #[trigger] src(i) == src2(flip_sq(i)),
    ensures
        within(wall_steps(h, v), src, sq, n) == within(wall_steps(fh, fv), src2, flip_sq(sq), n),
    decreases n,
{
    if n > 0 {
        let m = (n - 1) as nat;
        let st = wall_steps(h, v);
        let st2 = wall_steps(fh, fv);
        let f = flip_sq(sq);
        lemma_flip_around(sq);
        lemma_flip_within(h, v, fh, fv, src, src2, sq, m);
        assert((st(sq + 9, 0) && within(st, src, sq + 9, m)) == (st2(f - 9, 1) && within(
            st2,
            src2,
            f - 9,
            m,
        ))) by {
            if sq + 9 < 81 {
                lemma_flip_within(h, v, fh, fv, src, src2, sq + 9, m);
                lemma_flip_steps(h, v, fh, fv, sq + 9, 0);
            }
        }
        assert((st(sq - 9, 1) && within(st, src, sq - 9, m)) == (st2(f + 9, 0) && within(
            st2,
            src2,
            f + 9,
            m,
        ))) by {
            if sq >= 9 {
                lemma_flip_within(h, v, fh, fv, src, src2, sq - 9, m);
                lemma_flip_steps(h, v, fh, fv, sq - 9, 1);
            }
        }
        assert((st(sq + 1, 2) && within(st, src, sq + 1, m)) == (st2(f + 1, 2) && within(
            st2,
            src2,
            f + 1,
            m,
        ))) by {
            lemma_flip_right(h, v, fh, fv, sq);
            if sq % 9 < 8 {
                lemma_flip_within(h, v, fh, fv, src, src2, sq + 1, m);
            }
        }
        assert((st(sq - 1, 3) && within(st, src, sq - 1, m)) == (st2(f - 1, 3) && within(
            st2,
            src2,
            f - 1,
            m,
        ))) by {
            lemma_flip_left(h, v, fh, fv, sq);
            if sq % 9 > 0 {
                lemma_flip_within(h, v, fh, fv, src, src2, sq - 1, m);
            }
        }
    }
}

/// Neighbours of a flipped square.
proof fn lemma_flip_around(sq: int)
    requires
        0 <= sq < 81,
    ensures
        0 <= flip_sq(sq) < 81,
        flip_sq(sq + 9) == flip_sq(sq) - 9,
        flip_sq(sq - 9) == flip_sq(sq) + 9,
        sq + 9 < 81 <==> flip_sq(sq) >= 9,
        sq >= 9 <==> flip_sq(sq) + 9 < 81,
        sq % 9 < 8 ==> flip_sq(sq + 1) == flip_sq(sq) + 1,
        sq % 9 > 0 ==> flip_sq(sq - 1) == flip_sq(sq) - 1,
        flip_sq(sq) % 9 == sq % 9,
        flip_sq(sq) / 9 == 8 - sq / 9,
{
    let r = sq / 9;
    let c = sq % 9;
    assert(sq == 9 * r + c && 0 <= r < 9 && 0 <= c < 9);
    assert((sq + 9) / 9 == r + 1 && (sq + 9) % 9 == c);
    assert((sq - 9) / 9 == r - 1 && (sq - 9) % 9 == c);
    if c < 8 {
        assert((sq + 1) / 9 == r && (sq + 1) % 9 == c + 1);
    }
    if c > 0 {
        assert((sq - 1) / 9 == r && (sq - 1) % 9 == c - 1);
    }
    let f = flip_sq(sq);
    assert(f == 9 * (8 - r) + c);
    assert(f / 9 == 8 - r && f % 9 == c);
}

proof fn lemma_flip_right(h: u64, v: u64, fh: u64, fv: u64, sq: int)
    requires
        is_flip(h, fh),
        is_flip(v, fv),
        0 <= sq < 81,
    ensures
        wall_steps(h, v)(sq + 1, 2) == wall_steps(fh, fv)(flip_sq(sq) + 1, 2),
        wall_steps(h, v)(sq + 1, 2) ==> sq % 9 < 8,
{
    lemma_flip_around(sq);
    if sq % 9 < 8 {
        lemma_flip_steps(h, v, fh, fv, sq + 1, 2);
    } else {
        assert((sq + 1) % 9 == 0);
        assert((flip_sq(sq) + 1) % 9 == 0);
    }
}

proof fn lemma_flip_left(h: u64, v: u64, fh: u64, fv: u64, sq: int)
    requires
        is_flip(h, fh),
        is_flip(v, fv),
        0 <= sq < 81,
    ensures
        wall_steps(h, v)(sq - 1, 3) == wall_steps(fh, fv)(flip_sq(sq) - 1, 3),
        wall_steps(h, v)(sq - 1, 3) ==> sq % 9 > 0,
{
    lemma_flip_around(sq);
    if sq % 9 > 0 {
        lemma_flip_steps(h, v, fh, fv, sq - 1, 3);
    } else if sq > 0 {
        assert((sq - 1) % 9 == 8);
        assert(flip_sq(sq) > 0 ==> (flip_sq(sq) - 1) % 9 == 8);
    } else {
        assert((flip_sq(sq) - 1) % 9 == 8);
    }
}

/// A board and the game that mirrors it agree on who has a way, and how long
/// it is.
pub proof fn lemma_mirror_distances(b: Board, s: AceState, player: Player)
    requires
        b.wf(),
        s.wf(),
        mirrors(b, s),
    ensures
        has_path(b, player) == s.has_path_spec(player.index_spec()),
        goal_dist(b, player) == s.goal_dist(player.index_spec()),
{
    let p = player.index_spec();
    let src = goal_squares(player);
    let src2 = goal_squares(grid_player(p));
    let q = pawn_sq(b, player);
    let q2 = s.pawn(p);
    let st = board_steps(b);
    let st2 = wall_steps(s.h, s.v);
    assert(q / 9 == b.pawns[p].0 && q % 9 == b.pawns[p].1);
    assert(q2 == flip_sq(q));
    assert forall|i: int| 0 <= i < 81 implies #[trigger] src(i) == src2(flip_sq(i)) by {
        assert(flip_sq(i) / 9 == 8 - i / 9);
    }
    assert forall|n: nat| #[trigger] within(st, src, q, n) == within(st2, src2, q2, n) by {
        lemma_flip_within(b.horizontal_walls, b.vertical_walls, s.h, s.v, src, src2, q, n);
    }
    if reach(st, src, q) {
        let n = choose|n: nat| within(st, src, q, n);
        assert(within(st2, src2, q2, n));
        lemma_dist_exists(st, src, q, n);
        let k = choose|k: nat| k <= n && is_dist(st, src, q, k);
        assert(within(st2, src2, q2, k));
        assert(k > 0 ==> !within(st2, src2, q2, (k - 1) as nat)) by {
            if k > 0 {
                assert(within(st, src, q, (k - 1) as nat) == within(st2, src2, q2, (k - 1) as nat));
            }
        }
        lemma_dist_is(st, src, q, k);
        lemma_dist_is(st2, src2, q2, k);
    } else if reach(st2, src2, q2) {
        let n = choose|n: nat| within(st2, src2, q2, n);
        assert(within(st, src, q, n));
    }
}

} // verus!
