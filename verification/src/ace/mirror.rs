//! A board and the game that mirrors it have the same legal moves.

use vstd::prelude::*;

use crate::ace::certify::{legal_in, lemma_some_grid};
use crate::ace::convert::{
    is_flip, lemma_flip_pair, lemma_flip_slot, lemma_mirror_distances, lemma_move_round_trip,
    lemma_rows, mirrors, on_grid, to_ace,
};
use crate::ace::game::{
    lemma_grid_paths, move_cell, pawn_cells_of, wall_slot, AceState,
};
use crate::movegen::legal::{legal_moves, lemma_modes_agree, mode_pawn_moves, PawnGenMode};
use crate::movegen::rules::{
    across, anchored, at, collides, keeps_paths, lands_on_board, lemma_pawn_moves_exact,
    lemma_pawn_moves_land, loose, open_from, oriented_walls, pawn_legal, pawn_legal_dir, pawn_moves,
    pawn_to, shifted, tested, unit, wall_at, wall_list, wall_moves, Sq,
};
use crate::position::board::{Board, Move, Player, WallOrientation};
use crate::util::bits::{ascending, lemma_ascending_members};
use crate::util::grid::slot;

verus! {

/// A square of the other row order.
pub open spec fn turned(a: Sq) -> Sq {
    (8 - a.0, a.1)
}

/// An offset of the other row order.
pub open spec fn turned_step(d: Sq) -> Sq {
    (-d.0, d.1)
}

pub open spec fn on_board(a: Sq) -> bool {
    0 <= a.0 <= 8 && 0 <= a.1 <= 8
}

pub proof fn lemma_flip_back(m: u64, f: u64)
    requires
        is_flip(m, f),
    ensures
        is_flip(f, m),
{
    assert forall|r: int, c: int| 0 <= r < 8 && 0 <= c < 8 implies #[trigger] slot(m, r, c) == slot(
        f,
        7 - r,
        c,
    ) by {
        lemma_flip_pair(m, f, r, c);
    }
}

/// Steps of the two row orders.
proof fn lemma_turned_step(h: u64, v: u64, fh: u64, fv: u64, a: Sq, d: Sq)
    requires
        is_flip(h, fh),
        is_flip(v, fv),
        unit(d),
    ensures
        open_from(h, v, a, d) == open_from(fh, fv, turned(a), turned_step(d)),
        unit(turned_step(d)),
        turned(shifted(a, d)) == shifted(turned(a), turned_step(d)),
{
    let r = a.0;
    let c = a.1;
    lemma_flip_pair(h, fh, r, c);
    lemma_flip_pair(h, fh, r, c - 1);
    lemma_flip_pair(h, fh, r - 1, c);
    lemma_flip_pair(h, fh, r - 1, c - 1);
    lemma_flip_pair(v, fv, r, c);
    lemma_flip_pair(v, fv, r - 1, c);
    lemma_flip_pair(v, fv, r, c - 1);
    lemma_flip_pair(v, fv, r - 1, c - 1);
}

/// Pawn moves of one row order are those of the other.
proof fn lemma_turned_pawn(h: u64, v: u64, fh: u64, fv: u64, f: Sq, o: Sq, to: Sq)
    requires
        is_flip(h, fh),
        is_flip(v, fv),
        on_board(f),
        on_board(o),
        on_board(to),
        pawn_legal(h, v, f, o, pawn_to(to)),
    ensures
        pawn_legal(fh, fv, turned(f), turned(o), pawn_to(turned(to))),
{
    let d = choose|d: Sq| #[trigger] unit(d) && pawn_legal_dir(h, v, f, o, d, pawn_to(to));
    let e = turned_step(d);
    lemma_turned_step(h, v, fh, fv, f, d);
    let n = shifted(f, d);
    lemma_turned_step(h, v, fh, fv, n, d);
    assert(on_board(n));
    if n == o && !open_from(h, v, n, d) {
        let a = choose|a: Sq| #[trigger]
            across(d, a) && open_from(h, v, n, a) && pawn_to(to) == pawn_to(shifted(n, a));
        lemma_turned_step(h, v, fh, fv, n, a);
        let x = turned_step(a);
        assert(across(e, x));
        assert(to == shifted(n, a));
        assert(pawn_to(turned(to)) == pawn_to(shifted(turned(n), x)));
    } else if n == o {
        assert(to == shifted(n, d));
    } else {
        assert(to == n);
    }
    assert(pawn_legal_dir(fh, fv, turned(f), turned(o), e, pawn_to(turned(to))));
}

/// Cells and squares: a cell is listed where the move to its square is legal.
#[verifier::spinoff_prover]
#[verifier::rlimit(50)]
proof fn lemma_cells_legal(s: AceState, m: i16)
    requires
        s.wf(),
        0 <= m < 81,
    ensures
        s.pawn_cells().contains(m) == pawn_legal(
            s.h,
            s.v,
            (s.pawn(s.turn) / 9, s.pawn(s.turn) % 9),
            (s.pawn(1 - s.turn) / 9, s.pawn(1 - s.turn) % 9),
            pawn_to((m as int / 9, m as int % 9)),
        ),
{
    reveal(pawn_cells_of);
    let from = s.pawn(s.turn);
    let opp = s.pawn(1 - s.turn);
    let f: Sq = (from / 9, from % 9);
    let o: Sq = (opp / 9, opp % 9);
    let list = pawn_moves(s.h, s.v, f, o);
    let mv = pawn_to((m as int / 9, m as int % 9));
    lemma_pawn_moves_exact(s.h, s.v, f, o, mv);
    lemma_pawn_moves_land(s.h, s.v, f, o);
    assert(move_cell(mv) == m);
    if list.contains(mv) {
        let k = choose|k: int| 0 <= k < list.len() && list[k] == mv;
        assert(s.pawn_cells()[k] == m);
    }
    if s.pawn_cells().contains(m) {
        let k = choose|k: int| 0 <= k < s.pawn_cells().len() && s.pawn_cells()[k] == m;
        assert(s.pawn_cells()[k] == move_cell(list[k]));
        assert(lands_on_board(list[k]));
        assert(list[k] == mv);
    }
}

/// Wall slots of the two row orders.
proof fn lemma_turned_wall(b: Board, s: AceState, gb: Board, r: int, c: int, o: WallOrientation)
    requires
        b.wf(),
        s.wf(),
        mirrors(b, s),
        s.grid_is(gb),
        0 <= r < 8,
        0 <= c < 8,
    ensures
        collides(b, r, c, o) == collides(gb, 7 - r, c, o),
        anchored(b, r, c, o) == anchored(gb, 7 - r, c, o),
        keeps_paths(b, r, c, o) == keeps_paths(gb, 7 - r, c, o),
{
    let h = b.horizontal_walls;
    let v = b.vertical_walls;
    lemma_turned_near(h, s.h, r, c);
    lemma_turned_near(v, s.v, r, c);
    let b2 = b.with_wall(r, c, o, true);
    let gb2 = gb.with_wall(7 - r, c, o, true);
    let s2 = AceState { h: gb2.horizontal_walls, v: gb2.vertical_walls, ..s };
    lemma_flip_slot(h, s.h, r, c);
    lemma_flip_slot(v, s.v, r, c);
    assert(mirrors(b2, s2));
    assert(s2.grid_is(gb2));
    lemma_mirror_distances(b2, s2, Player::One);
    lemma_mirror_distances(b2, s2, Player::Two);
    lemma_grid_paths(s2, gb2);
}

/// The slots around a slot, turned round.
proof fn lemma_turned_near(m: u64, f: u64, r: int, c: int)
    requires
        is_flip(m, f),
    ensures
        forall|i: int, j: int|
            r - 2 <= i <= r + 2 && c - 2 <= j <= c + 2 ==> #[trigger] slot(m, i, j) == slot(
                f,
                7 - i,
                j,
            ),
        forall|i: int, j: int|
            7 - r - 2 <= i <= 7 - r + 2 && c - 2 <= j <= c + 2 ==> #[trigger] slot(f, i, j) == slot(
                m,
                7 - i,
                j,
            ),
{
    assert forall|i: int, j: int|
        r - 2 <= i <= r + 2 && c - 2 <= j <= c + 2 implies #[trigger] slot(m, i, j) == slot(
        f,
        7 - i,
        j,
    ) by {
        lemma_flip_pair(m, f, i, j);
    }
    assert forall|i: int, j: int|
        7 - r - 2 <= i <= 7 - r + 2 && c - 2 <= j <= c + 2 implies #[trigger] slot(f, i, j) == slot(
        m,
        7 - i,
        j,
    ) by {
        lemma_flip_pair(m, f, 7 - i, j);
    }
}

/// Which walls the list holds.
proof fn lemma_wall_listed(b: Board, row: u8, col: u8, o: WallOrientation)
    requires
        row < 8,
        col < 8,
    ensures
        wall_moves(b).contains(Move::Wall { row, col, orientation: o }) == (loose(
            b,
            row * 8 + col,
            o,
        ) || tested(b, row * 8 + col, o)),
{
    let mv = Move::Wall { row, col, orientation: o };
    let hs = oriented_walls(b, WallOrientation::Horizontal);
    let vs = oriented_walls(b, WallOrientation::Vertical);
    lemma_oriented_listed(b, WallOrientation::Horizontal, row, col, o);
    lemma_oriented_listed(b, WallOrientation::Vertical, row, col, o);
    let all = wall_moves(b);
    if hs.contains(mv) {
        let k = choose|k: int| 0 <= k < hs.len() && hs[k] == mv;
        assert(all[k] == mv);
    }
    if vs.contains(mv) {
        let k = choose|k: int| 0 <= k < vs.len() && vs[k] == mv;
        assert(all[hs.len() + k] == mv);
    }
    if all.contains(mv) {
        let k = choose|k: int| 0 <= k < all.len() && all[k] == mv;
        if k < hs.len() {
            assert(hs[k] == mv);
        } else {
            assert(vs[k - hs.len()] == mv);
        }
    }
}

proof fn lemma_oriented_listed(b: Board, x: WallOrientation, row: u8, col: u8, o: WallOrientation)
    requires
        row < 8,
        col < 8,
    ensures
        oriented_walls(b, x).contains(Move::Wall { row, col, orientation: o }) == (x == o && (loose(
            b,
            row * 8 + col,
            o,
        ) || tested(b, row * 8 + col, o))),
{
    let mv = Move::Wall { row, col, orientation: o };
    let i = row * 8 + col;
    let p = |i: int| loose(b, i, x);
    let q = |i: int| tested(b, i, x);
    let ps = wall_list(ascending(p, 0, 64), x);
    let qs = wall_list(ascending(q, 0, 64), x);
    let all = oriented_walls(b, x);
    lemma_listed(p, x, row, col, o);
    lemma_listed(q, x, row, col, o);
    assert(all == ps + qs);
    if ps.contains(mv) {
        let k = choose|k: int| 0 <= k < ps.len() && ps[k] == mv;
        assert(all[k] == mv);
    }
    if qs.contains(mv) {
        let k = choose|k: int| 0 <= k < qs.len() && qs[k] == mv;
        assert(all[ps.len() + k] == mv);
    }
    if all.contains(mv) {
        let k = choose|k: int| 0 <= k < all.len() && all[k] == mv;
        if k < ps.len() {
            assert(ps[k] == mv);
        } else {
            assert(qs[k - ps.len()] == mv);
        }
    }
}

proof fn lemma_listed(p: spec_fn(int) -> bool, x: WallOrientation, row: u8, col: u8, o: WallOrientation)
    requires
        row < 8,
        col < 8,
    ensures
        wall_list(ascending(p, 0, 64), x).contains(Move::Wall { row, col, orientation: o }) == (x
            == o && p(row * 8 + col)),
{
    let mv = Move::Wall { row, col, orientation: o };
    let i = row * 8 + col;
    let slots = ascending(p, 0, 64);
    let list = wall_list(slots, x);
    lemma_ascending_members(p, 0, 64);
    assert(p(i) ==> slots.contains(i));
    if x == o && p(i) {
        let k = choose|k: int| 0 <= k < slots.len() && slots[k] == i;
        assert(list[k] == wall_at(i, x));
        assert(list[k] == mv);
    }
    if list.contains(mv) {
        let k = choose|k: int| 0 <= k < list.len() && list[k] == mv;
        assert(list[k] == wall_at(slots[k], x));
        assert(slots.contains(slots[k]));
        assert(slots[k] == i);
    }
}

/// The legal moves are the pawn moves and, with a wall left, the wall moves.
proof fn lemma_legal_parts(b: Board, mode: PawnGenMode, mv: Move)
    requires
        b.winner() is None,
    ensures
        legal_moves(b, mode).contains(mv) == (mode_pawn_moves(b, mode).contains(mv) || (
        b.walls_remaining[b.side_to_move.index_spec()] > 0 && wall_moves(b).contains(mv))),
{
    let all = legal_moves(b, mode);
    let ps = mode_pawn_moves(b, mode);
    let ws = wall_moves(b);
    let armed = b.walls_remaining[b.side_to_move.index_spec()] > 0;
    if ps.contains(mv) {
        let k = choose|k: int| 0 <= k < ps.len() && ps[k] == mv;
        assert(all[k] == mv);
    }
    if armed && ws.contains(mv) {
        let k = choose|k: int| 0 <= k < ws.len() && ws[k] == mv;
        assert(all[ps.len() + k] == mv);
    }
    if all.contains(mv) {
        let k = choose|k: int| 0 <= k < all.len() && all[k] == mv;
        if k < ps.len() {
            assert(ps[k] == mv);
        } else {
            assert(ws[k - ps.len()] == mv);
        }
    }
}

/// No pawn move is among the wall moves.
proof fn lemma_no_pawn_among_walls(b: Board, mv: Move)
    requires
        mv is Pawn,
    ensures
        !wall_moves(b).contains(mv),
{
}

#[verifier::spinoff_prover]
#[verifier::rlimit(50)]
proof fn lemma_mirror_pawn_legal(b: Board, s: AceState, row: u8, col: u8)
    requires
        b.wf(),
        s.wf(),
        mirrors(b, s),
        row < 9,
        col < 9,
    ensures
        pawn_legal(
            b.horizontal_walls,
            b.vertical_walls,
            at(b, b.side_to_move),
            at(b, b.side_to_move.opposite_spec()),
            (Move::Pawn { row, col }),
        ) == s.pawn_cells().contains(to_ace(Move::Pawn { row, col })),
{
    let mv = Move::Pawn { row, col };
    let m = to_ace(mv);
    let f = at(b, b.side_to_move);
    let o = at(b, b.side_to_move.opposite_spec());
    let to: Sq = (row as int, col as int);
    assert(mv == pawn_to(to));
    assert(m == (8 - row) * 9 + col);
    lemma_rows(8 - row as int, col as int);
    assert(pawn_to(turned(to)) == pawn_to((m as int / 9, m as int % 9)));
    lemma_cells_legal(s, m);
    let sf: Sq = (s.pawn(s.turn) / 9, s.pawn(s.turn) % 9);
    let so: Sq = (s.pawn(1 - s.turn) / 9, s.pawn(1 - s.turn) % 9);
    lemma_rows(8 - f.0, f.1);
    lemma_rows(8 - o.0, o.1);
    assert(sf == turned(f));
    assert(so == turned(o));
    let h = b.horizontal_walls;
    let v = b.vertical_walls;
    if pawn_legal(h, v, f, o, mv) {
        lemma_turned_pawn(h, v, s.h, s.v, f, o, to);
    }
    if pawn_legal(s.h, s.v, sf, so, pawn_to(turned(to))) {
        lemma_flip_back(h, s.h);
        lemma_flip_back(v, s.v);
        lemma_turned_pawn(s.h, s.v, h, v, sf, so, turned(to));
        assert(turned(turned(to)) == to);
        assert(turned(sf) == f);
        assert(turned(so) == o);
    }
}

proof fn lemma_mirror_wall_legal(b: Board, s: AceState, row: u8, col: u8, orientation: WallOrientation)
    requires
        b.wf(),
        s.wf(),
        mirrors(b, s),
        row < 8,
        col < 8,
    ensures
        wall_moves(b).contains(Move::Wall { row, col, orientation }) == s.wall_legal_spec(
            (7 - row) * 8 + col,
            orientation,
        ),
{
    let i = row * 8 + col;
    let j = (7 - row) * 8 + col;
    lemma_some_grid(s);
    let gb = s.grid_board();
    lemma_turned_wall(b, s, gb, row as int, col as int, orientation);
    assert(i / 8 == row && i % 8 == col);
    assert(j / 8 == 7 - row && j % 8 == col);
    reveal(AceState::wall_legal_spec);
    lemma_wall_listed(b, row, col, orientation);
}

/// The board of a game and the game itself have the same legal moves.
pub proof fn lemma_mirror_legal(b: Board, s: AceState, mode: PawnGenMode, mv: Move)
    requires
        b.wf(),
        s.wf(),
        mirrors(b, s),
        on_grid(mv),
        b.winner() is None,
    ensures
        legal_moves(b, mode).contains(mv) == legal_in(s, to_ace(mv)),
{
    lemma_legal_parts(b, mode, mv);
    lemma_modes_agree(b, mode, mv);
    lemma_move_round_trip(mv, to_ace(mv));
    match mv {
        Move::Pawn { row, col } => {
            lemma_no_pawn_among_walls(b, mv);
            lemma_mirror_pawn_legal(b, s, row, col);
        },
        Move::Wall { row, col, orientation } => {
            lemma_mirror_wall_legal(b, s, row, col, orientation);
            assert(wall_slot(to_ace(mv)) == (7 - row) * 8 + col);
            assert(s.wl(s.turn) == b.walls_remaining[b.side_to_move.index_spec()]);
        },
    }
}

} // verus!
