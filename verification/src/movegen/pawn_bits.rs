//! Pawn move generation on bit sets and by stepwise tests.

use vstd::prelude::*;

use crate::movegen::rules::{dir_moves, mover_pawn_moves_by_axis, pawn_moves, slide, Sq};
use crate::path::flood::lemma_halves;
use crate::path::graph::{board_steps, dir_col, dir_row, lemma_wall_steps_stay, toward};
use crate::path::masks::DirMasks;
use crate::position::board::{Board, Move};
use crate::util::bits::{lemma_one128, lemma_shift_one128};
use crate::util::grid::{flood_bit_sq, square_index, step_open, unpack_square};

verus! {

/// A buffer after the items of `s` were written from position `n` on.
pub open spec fn written<T>(buf: Seq<T>, n: int, s: Seq<T>) -> Seq<T> {
    buf.subrange(0, n) + s + buf.subrange(n + s.len(), buf.len() as int)
}

/// Writing one list behind another.
pub proof fn lemma_written_twice<T>(buf: Seq<T>, n: int, s: Seq<T>, t: Seq<T>)
    requires
        0 <= n,
        n + s.len() + t.len() <= buf.len(),
    ensures
        written(written(buf, n, s), n + s.len() as int, t) == written(buf, n, s + t),
        written(buf, n, s).len() == buf.len(),
{
    assert(written(written(buf, n, s), n + s.len() as int, t) =~= written(buf, n, s + t));
}

/// Writes one item and counts it.
#[inline]
pub fn push_move(mv: Move, out: &mut [Move], n: usize) -> (r: usize)
    requires
        n < old(out)@.len(),
    ensures
        r == n + 1,
        final(out)@ == written(old(out)@, n as int, seq![mv]),
{
    out[n] = mv;
    assert(out@ =~= written(old(out)@, n as int, seq![mv]));
    n + 1
}

/// One axis: the wall and border test first, then jump and slides.
pub fn axis_shift(
    h: u64,
    v: u64,
    from: (u8, u8),
    opp: (u8, u8),
    dir: (i8, i8),
    perp_a: (i8, i8),
    perp_b: (i8, i8),
    out: &mut [Move],
    n: usize,
) -> (r: usize)
    requires
        from.0 < 9,
        from.1 < 9,
        n + dir_moves(
            h,
            v,
            (from.0 as int, from.1 as int),
            (opp.0 as int, opp.1 as int),
            (dir.0 as int, dir.1 as int),
            (perp_a.0 as int, perp_a.1 as int),
            (perp_b.0 as int, perp_b.1 as int),
        ).len() <= old(out)@.len(),
    ensures
        ({
            let s = dir_moves(
                h,
                v,
                (from.0 as int, from.1 as int),
                (opp.0 as int, opp.1 as int),
                (dir.0 as int, dir.1 as int),
                (perp_a.0 as int, perp_a.1 as int),
                (perp_b.0 as int, perp_b.1 as int),
            );
            r == n + s.len() && final(out)@ == written(old(out)@, n as int, s)
        }),
{
    let (fr, fc) = from;
    let (dr, dc) = dir;
    if !step_open(h, v, fr, fc, dr, dc) {
        assert(out@ =~= written(old(out)@, n as int, Seq::<Move>::empty()));
        return n;
    }
    let nr: u8 = (fr as i8 + dr) as u8;
    let nc: u8 = (fc as i8 + dc) as u8;
    if nr != opp.0 || nc != opp.1 {
        return push_move(Move::Pawn { row: nr, col: nc }, out, n);
    }
    if step_open(h, v, nr, nc, dr, dc) {
        let jr: u8 = (nr as i8 + dr) as u8;
        let jc: u8 = (nc as i8 + dc) as u8;
        return push_move(Move::Pawn { row: jr, col: jc }, out, n);
    }
    let ghost at = (nr as int, nc as int);
    let ghost s = slide(h, v, at, (perp_a.0 as int, perp_a.1 as int));
    let ghost t = slide(h, v, at, (perp_b.0 as int, perp_b.1 as int));
    let m: usize = slide_into(h, v, nr, nc, perp_a, out, n);
    let k: usize = slide_into(h, v, nr, nc, perp_b, out, m);
    proof {
        lemma_written_twice(old(out)@, n as int, s, t);
    }
    k
}

/// A slide beside the opponent, if it is open.
fn slide_into(h: u64, v: u64, row: u8, col: u8, d: (i8, i8), out: &mut [Move], n: usize) -> (r: usize)
    requires
        row < 9,
        col < 9,
        n + slide(
            h,
            v,
            (row as int, col as int),
            (d.0 as int, d.1 as int),
        ).len() <= old(out)@.len(),
    ensures
        ({
            let s = slide(
                h,
                v,
                (row as int, col as int),
                (d.0 as int, d.1 as int),
            );
            r == n + s.len() && final(out)@ == written(old(out)@, n as int, s)
        }),
{
    if step_open(h, v, row, col, d.0, d.1) {
        let sr: u8 = (row as i8 + d.0) as u8;
        let sc: u8 = (col as i8 + d.1) as u8;
        push_move(Move::Pawn { row: sr, col: sc }, out, n)
    } else {
        assert(out@ =~= written(old(out)@, n as int, Seq::<Move>::empty()));
        n
    }
}

/// All pawn moves by stepwise tests, in scalar order.
pub fn pawn_moves_into(h: u64, v: u64, f: (u8, u8), o: (u8, u8), out: &mut [Move]) -> (n: usize)
    requires
        f.0 < 9,
        f.1 < 9,
        pawn_moves(h, v, (f.0 as int, f.1 as int), (o.0 as int, o.1 as int)).len()
            <= old(out)@.len(),
    ensures
        ({
            let s = pawn_moves(h, v, (f.0 as int, f.1 as int), (o.0 as int, o.1 as int));
            n == s.len() && final(out)@ == written(old(out)@, 0, s)
        }),
{
    let ghost fi: Sq = (f.0 as int, f.1 as int);
    let ghost oi: Sq = (o.0 as int, o.1 as int);
    let ghost s1 = dir_moves(h, v, fi, oi, (1, 0), (0, 1), (0, -1));
    let ghost s2 = dir_moves(h, v, fi, oi, (0, 1), (1, 0), (-1, 0));
    let ghost s3 = dir_moves(h, v, fi, oi, (-1, 0), (0, 1), (0, -1));
    let ghost s4 = dir_moves(h, v, fi, oi, (0, -1), (1, 0), (-1, 0));
    let n1: usize = axis_shift(h, v, f, o, (1, 0), (0, 1), (0, -1), out, 0);
    let n2: usize = axis_shift(h, v, f, o, (0, 1), (1, 0), (-1, 0), out, n1);
    let n3: usize = axis_shift(h, v, f, o, (-1, 0), (0, 1), (0, -1), out, n2);
    let n4: usize = axis_shift(h, v, f, o, (0, -1), (1, 0), (-1, 0), out, n3);
    proof {
        lemma_written_twice(old(out)@, 0, s1, s2);
        lemma_written_twice(old(out)@, 0, s1 + s2, s3);
        lemma_written_twice(old(out)@, 0, s1 + s2 + s3, s4);
    }
    n4
}

/// Pawn moves of the player on turn by stepwise tests; no step table.
pub fn generate_pawn_moves_shift_slice(board: &Board, out: &mut [Move]) -> (n: usize)
    requires
        board.wf(),
        mover_pawn_moves_by_axis(*board).len() <= old(out)@.len(),
    ensures
        n == mover_pawn_moves_by_axis(*board).len(),
        final(out)@ == written(old(out)@, 0, mover_pawn_moves_by_axis(*board)),
{
    let side: usize = board.side_to_move.index();
    let f: (u8, u8) = board.pawns[side];
    let o: (u8, u8) = board.pawns[1 - side];
    let h: u64 = board.horizontal_walls;
    let v: u64 = board.vertical_walls;
    let ghost fi: Sq = (f.0 as int, f.1 as int);
    let ghost oi: Sq = (o.0 as int, o.1 as int);
    let ghost s1 = dir_moves(h, v, fi, oi, (-1, 0), (0, -1), (0, 1));
    let ghost s2 = dir_moves(h, v, fi, oi, (1, 0), (0, -1), (0, 1));
    let ghost s3 = dir_moves(h, v, fi, oi, (0, 1), (-1, 0), (1, 0));
    let ghost s4 = dir_moves(h, v, fi, oi, (0, -1), (-1, 0), (1, 0));
    let n1: usize = axis_shift(h, v, f, o, (-1, 0), (0, -1), (0, 1), out, 0);
    let n2: usize = axis_shift(h, v, f, o, (1, 0), (0, -1), (0, 1), out, n1);
    let n3: usize = axis_shift(h, v, f, o, (0, 1), (-1, 0), (1, 0), out, n2);
    let n4: usize = axis_shift(h, v, f, o, (0, -1), (-1, 0), (1, 0), out, n3);
    proof {
        lemma_written_twice(old(out)@, 0, s1, s2);
        lemma_written_twice(old(out)@, 0, s1 + s2, s3);
        lemma_written_twice(old(out)@, 0, s1 + s2 + s3, s4);
    }
    n4
}

/// The step of a set of squares in direction `d`, as far as it is open.
#[inline]
fn step_dir(bit: u128, m: &DirMasks, d: u8) -> (r: u128)
    requires
        d < 4,
    ensures
        r == (if d == 0 {
            (bit & m.north) >> 9
        } else if d == 1 {
            (bit & m.south) << 9
        } else if d == 2 {
            (bit & m.west) >> 1
        } else {
            (bit & m.east) << 1
        }),
{
    if d == 0 {
        (bit & m.north) >> 9
    } else if d == 1 {
        (bit & m.south) << 9
    } else if d == 2 {
        (bit & m.west) >> 1
    } else {
        (bit & m.east) << 1
    }
}

/// The word of one square.
pub open spec fn word(sq: int) -> u128 {
    1u128 << (sq as u128)
}

/// Stepping one square gives the word of the neighbour, or nothing.
fn step_square(bit: u128, m: &DirMasks, d: u8, Ghost(sq): Ghost<int>, Ghost(b): Ghost<Board>) -> (r:
    u128)
    requires
        d < 4,
        0 <= sq < 81,
        bit == word(sq),
        m.allows(board_steps(b)),
    ensures
        board_steps(b)(sq, d as int) ==> 0 <= toward(sq, d as int) < 81 && r == word(
            toward(sq, d as int),
        ),
        !board_steps(b)(sq, d as int) ==> r == 0,
{
    proof {
        assert(m.steps()(sq, d as int) == board_steps(b)(sq, d as int));
        if board_steps(b)(sq, d as int) {
            lemma_wall_steps_stay(b.horizontal_walls, b.vertical_walls, sq, d as int);
        }
        lemma_one128(m.north, sq, 0);
        lemma_one128(m.south, sq, 0);
        lemma_one128(m.west, sq, 0);
        lemma_one128(m.east, sq, 0);
        lemma_shift_one128(sq);
        if sq >= 9 {
            lemma_shift_one128(sq - 9);
        }
        if sq >= 1 {
            lemma_shift_one128(sq - 1);
        }
    }
    step_dir(bit, m, d)
}

/// The square of a word that holds one.
fn square_of(bit: u128, Ghost(sq): Ghost<int>) -> (r: u8)
    requires
        0 <= sq < 81,
        bit == word(sq),
    ensures
        r == sq,
{
    #[verifier::truncate]
    let low: u64 = bit as u64;
    let high: u64 = (bit >> 64) as u64;
    proof {
        vstd::std_specs::bits::axiom_u64_trailing_zeros(low);
        vstd::std_specs::bits::axiom_u64_trailing_zeros(high);
        let a = vstd::std_specs::bits::u64_trailing_zeros(low) as int;
        let c = vstd::std_specs::bits::u64_trailing_zeros(high) as int;
        lemma_halves(bit, if a < 64 { a } else { 0 });
        lemma_halves(bit, if c < 64 { c } else { 0 });
        if a < 64 {
            lemma_one128(0, sq, a);
        }
        if c < 64 {
            lemma_one128(0, sq, c + 64);
        }
        lemma_one128(0, sq, sq);
    }
    if low != 0 {
        low.trailing_zeros() as u8
    } else {
        64 + high.trailing_zeros() as u8
    }
}

/// One axis on bit sets: the step, the straight jump over the opponent, or the
/// slides beside it when the jump is blocked.
fn axis_moves(
    from: (u8, u8),
    opp: (u8, u8),
    masks: &DirMasks,
    fwd: u8,
    perp_a: u8,
    perp_b: u8,
    out: &mut [Move],
    n: usize,
    Ghost(b): Ghost<Board>,
) -> (r: usize)
    requires
        from.0 < 9,
        from.1 < 9,
        opp.0 < 9,
        opp.1 < 9,
        fwd < 4,
        perp_a < 4,
        perp_b < 4,
        masks.allows(board_steps(b)),
        n + axis_dir_moves(b, from, opp, fwd as int, perp_a as int, perp_b as int).len()
            <= old(out)@.len(),
    ensures
        ({
            let s = axis_dir_moves(b, from, opp, fwd as int, perp_a as int, perp_b as int);
            r == n + s.len() && final(out)@ == written(old(out)@, n as int, s)
        }),
{
    let fsq: u8 = square_index(from.0, from.1);
    let osq: u8 = square_index(opp.0, opp.1);
    let f: u128 = flood_bit_sq(fsq);
    let o: u128 = flood_bit_sq(osq);
    let ghost h = b.horizontal_walls;
    let ghost v = b.vertical_walls;
    let ghost nsq = toward(fsq as int, fwd as int);
    proof {
        if board_steps(b)(fsq as int, fwd as int) {
            lemma_wall_steps_stay(h, v, fsq as int, fwd as int);
            lemma_one128(0, nsq, osq as int);
        }
        if board_steps(b)(osq as int, fwd as int) {
            lemma_wall_steps_stay(h, v, osq as int, fwd as int);
            lemma_one128(0, toward(osq as int, fwd as int), 0);
        }
        if 0 <= nsq < 81 {
            lemma_one128(0, nsq, 0);
        }
    }
    let neighbor: u128 = step_square(f, masks, fwd, Ghost(fsq as int), Ghost(b));
    if neighbor == 0 {
        assert(out@ =~= written(old(out)@, n as int, Seq::<Move>::empty()));
        return n;
    }
    if neighbor != o {
        let (r, c) = unpack_square(square_of(neighbor, Ghost(nsq)));
        return push_move(Move::Pawn { row: r, col: c }, out, n);
    }
    let jump: u128 = step_square(o, masks, fwd, Ghost(osq as int), Ghost(b));
    if jump != 0 {
        let (r, c) = unpack_square(square_of(jump, Ghost(toward(osq as int, fwd as int))));
        return push_move(Move::Pawn { row: r, col: c }, out, n);
    }
    let ghost at = (opp.0 as int, opp.1 as int);
    let ghost s = slide(h, v, at, (dir_row(perp_a as int), dir_col(perp_a as int)));
    let ghost t = slide(h, v, at, (dir_row(perp_b as int), dir_col(perp_b as int)));
    let m: usize = slide_bits(o, opp, masks, perp_a, out, n, Ghost(b));
    let k: usize = slide_bits(o, opp, masks, perp_b, out, m, Ghost(b));
    proof {
        lemma_written_twice(old(out)@, n as int, s, t);
    }
    k
}

/// The moves of one axis, directions by number.
pub open spec fn axis_dir_moves(
    b: Board,
    from: (u8, u8),
    opp: (u8, u8),
    fwd: int,
    perp_a: int,
    perp_b: int,
) -> Seq<Move> {
    dir_moves(
        b.horizontal_walls,
        b.vertical_walls,
        (from.0 as int, from.1 as int),
        (opp.0 as int, opp.1 as int),
        (dir_row(fwd), dir_col(fwd)),
        (dir_row(perp_a), dir_col(perp_a)),
        (dir_row(perp_b), dir_col(perp_b)),
    )
}

/// A slide beside the opponent, if the masks leave it open.
fn slide_bits(
    o: u128,
    opp: (u8, u8),
    masks: &DirMasks,
    d: u8,
    out: &mut [Move],
    n: usize,
    Ghost(b): Ghost<Board>,
) -> (r: usize)
    requires
        opp.0 < 9,
        opp.1 < 9,
        d < 4,
        o == word(opp.0 * 9 + opp.1),
        masks.allows(board_steps(b)),
        n + slide(
            b.horizontal_walls,
            b.vertical_walls,
            (opp.0 as int, opp.1 as int),
            (dir_row(d as int), dir_col(d as int)),
        ).len() <= old(out)@.len(),
    ensures
        ({
            let s = slide(
                b.horizontal_walls,
                b.vertical_walls,
                (opp.0 as int, opp.1 as int),
                (dir_row(d as int), dir_col(d as int)),
            );
            r == n + s.len() && final(out)@ == written(old(out)@, n as int, s)
        }),
{
    let ghost osq = opp.0 * 9 + opp.1;
    let bit: u128 = step_square(o, masks, d, Ghost(osq), Ghost(b));
    proof {
        if board_steps(b)(osq, d as int) {
            lemma_wall_steps_stay(b.horizontal_walls, b.vertical_walls, osq, d as int);
            lemma_one128(0, toward(osq, d as int), 0);
        }
    }
    if bit != 0 {
        let (r, c) = unpack_square(square_of(bit, Ghost(toward(osq, d as int))));
        push_move(Move::Pawn { row: r, col: c }, out, n)
    } else {
        assert(out@ =~= written(old(out)@, n as int, Seq::<Move>::empty()));
        n
    }
}

/// Pawn moves of the player on turn from step masks of the board.
pub fn generate_pawn_moves_bitboard_with_masks(
    board: &Board,
    masks: &DirMasks,
    out: &mut [Move],
) -> (n: usize)
    requires
        board.wf(),
        masks.allows(board_steps(*board)),
        mover_pawn_moves_by_axis(*board).len() <= old(out)@.len(),
    ensures
        n == mover_pawn_moves_by_axis(*board).len(),
        final(out)@ == written(old(out)@, 0, mover_pawn_moves_by_axis(*board)),
{
    let side: usize = board.side_to_move.index();
    let f: (u8, u8) = board.pawns[side];
    let o: (u8, u8) = board.pawns[1 - side];
    let ghost s1 = axis_dir_moves(*board, f, o, 0, 2, 3);
    let ghost s2 = axis_dir_moves(*board, f, o, 1, 2, 3);
    let ghost s3 = axis_dir_moves(*board, f, o, 3, 0, 1);
    let ghost s4 = axis_dir_moves(*board, f, o, 2, 0, 1);
    let n1: usize = axis_moves(f, o, masks, 0, 2, 3, out, 0, Ghost(*board));
    let n2: usize = axis_moves(f, o, masks, 1, 2, 3, out, n1, Ghost(*board));
    let n3: usize = axis_moves(f, o, masks, 3, 0, 1, out, n2, Ghost(*board));
    let n4: usize = axis_moves(f, o, masks, 2, 0, 1, out, n3, Ghost(*board));
    proof {
        lemma_written_twice(old(out)@, 0, s1, s2);
        lemma_written_twice(old(out)@, 0, s1 + s2, s3);
        lemma_written_twice(old(out)@, 0, s1 + s2 + s3, s4);
    }
    n4
}

/// Pawn moves of the player on turn from step masks built for the call.
pub fn generate_pawn_moves_bitboard_slice(board: &Board, out: &mut [Move]) -> (n: usize)
    requires
        board.wf(),
        mover_pawn_moves_by_axis(*board).len() <= old(out)@.len(),
    ensures
        n == mover_pawn_moves_by_axis(*board).len(),
        final(out)@ == written(old(out)@, 0, mover_pawn_moves_by_axis(*board)),
{
    let masks: DirMasks = DirMasks::from_board(board);
    generate_pawn_moves_bitboard_with_masks(board, &masks, out)
}

} // verus!
