//! What every legal move keeps.

use vstd::prelude::*;

use crate::movegen::legal::{
    legal_moves, lemma_modes_agree, lemma_wall_moves_exact, mode_pawn_moves, PawnGenMode,
};
use crate::movegen::rules::{
    across, at, collides, loose, open_from, oriented_walls, pawn_legal, pawn_legal_dir, pawn_to,
    shifted, tested, unit, wall_at, wall_list, wall_moves, Sq,
};
use crate::movegen::topology::lemma_link;
use crate::path::graph::{
    board_steps, both_have_paths, dir_col, dir_row, goal_squares, has_path, pawn_sq, reach,
    wall_steps, Squares,
};
use crate::position::board::{Board, Move, WallOrientation};
use crate::util::bits::{ascending, lemma_ascending_members};
use crate::util::grid::slot;

verus! {

/// The move names a place of the grid; a wall collides with nothing.
pub open spec fn fits(b: Board, mv: Move) -> bool {
    match mv {
        Move::Pawn { row, col } => row < 9 && col < 9,
        Move::Wall { row, col, orientation } => row < 8 && col < 8 && !collides(
            b,
            row as int,
            col as int,
            orientation,
        ),
    }
}

/// A listed wall move fits.
proof fn lemma_oriented_fits(b: Board, o: WallOrientation, mv: Move)
    requires
        oriented_walls(b, o).contains(mv),
    ensures
        mv is Wall,
        fits(b, mv),
{
    let p = |i: int| loose(b, i, o);
    let q = |i: int| tested(b, i, o);
    let a = ascending(p, 0, 64);
    let c = ascending(q, 0, 64);
    let x = wall_list(a, o);
    let y = wall_list(c, o);
    let s = oriented_walls(b, o);
    lemma_ascending_members(p, 0, 64);
    lemma_ascending_members(q, 0, 64);
    let k = choose|k: int| 0 <= k < s.len() && s[k] == mv;
    assert(s == x + y);
    if k < x.len() {
        assert(p(a[k]));
        assert(x[k] == wall_at(a[k], o));
    } else {
        assert(q(c[k - x.len()]));
        assert(y[k - x.len()] == wall_at(c[k - x.len()], o));
    }
}

/// Every legal move fits, and a wall is played only by who has one.
pub proof fn lemma_legal_fits(b: Board, mode: PawnGenMode, mv: Move)
    requires
        b.wf(),
        legal_moves(b, mode).contains(mv),
    ensures
        b.winner() is None,
        fits(b, mv),
        mv is Pawn ==> pawn_legal(
            b.horizontal_walls,
            b.vertical_walls,
            at(b, b.side_to_move),
            at(b, b.side_to_move.opposite_spec()),
            mv,
        ),
        mv is Wall ==> b.walls_remaining[b.side_to_move.index_spec()] > 0 && wall_moves(
            b,
        ).contains(mv),
{
    let all = legal_moves(b, mode);
    let p = mode_pawn_moves(b, mode);
    let w = wall_moves(b);
    let k = choose|k: int| 0 <= k < all.len() && all[k] == mv;
    lemma_modes_agree(b, mode, mv);
    if k < p.len() {
        assert(p[k] == mv);
        lemma_pawn_legal_lands(
            b.horizontal_walls,
            b.vertical_walls,
            at(b, b.side_to_move),
            at(b, b.side_to_move.opposite_spec()),
            mv,
        );
    } else {
        assert(w[k - p.len()] == mv);
        let h = oriented_walls(b, WallOrientation::Horizontal);
        let v = oriented_walls(b, WallOrientation::Vertical);
        assert(w == h + v);
        if k - p.len() < h.len() {
            assert(h[k - p.len()] == mv);
            lemma_oriented_fits(b, WallOrientation::Horizontal, mv);
        } else {
            assert(v[k - p.len() - h.len()] == mv);
            lemma_oriented_fits(b, WallOrientation::Vertical, mv);
        }
    }
}

proof fn lemma_pawn_legal_lands(h: u64, v: u64, f: Sq, o: Sq, mv: Move)
    requires
        pawn_legal(h, v, f, o, mv),
    ensures
        mv matches Move::Pawn { row, col } && row < 9 && col < 9,
{
    let d = choose|d: Sq| #[trigger] unit(d) && pawn_legal_dir(h, v, f, o, d, mv);
}

/// A legal move can be played and leads to a sound board; a wall goes into an
/// empty slot.
pub proof fn lemma_legal_playable(b: Board, mode: PawnGenMode, mv: Move, after: Board)
    requires
        b.wf(),
        b.move_number < u32::MAX,
        legal_moves(b, mode).contains(mv),
        b.leads_to(mv, after),
    ensures
        b.playable(mv),
        after.wf(),
        mv matches Move::Wall { row, col, orientation } ==> !slot(
            b.walls(orientation),
            row as int,
            col as int,
        ),
{
    lemma_legal_fits(b, mode, mv);
    assert(after.pawns[0] == after.pawns@[0] && after.pawns[1] == after.pawns@[1]);
    assert(b.pawns[0] == b.pawns@[0] && b.pawns[1] == b.pawns@[1]);
}

/// A pawn stays connected when it moves by open steps.
proof fn lemma_step_reach(h: u64, v: u64, src: Squares, a: Sq, d: Sq)
    requires
        0 <= a.0 < 9,
        0 <= a.1 < 9,
        unit(d),
        open_from(h, v, a, d),
    ensures
        reach(wall_steps(h, v), src, a.0 * 9 + a.1) == reach(
            wall_steps(h, v),
            src,
            shifted(a, d).0 * 9 + shifted(a, d).1,
        ),
{
    let k: int = if d == (-1int, 0int) {
        0
    } else if d == (1int, 0int) {
        1
    } else if d == (0int, -1int) {
        2
    } else {
        3
    };
    assert(dir_row(k) == d.0 && dir_col(k) == d.1);
    lemma_link(h, v, src, a.0, a.1, k);
}

/// After a legal pawn move the pawn is connected to what it was connected to.
proof fn lemma_pawn_reach(h: u64, v: u64, src: Squares, f: Sq, o: Sq, mv: Move)
    requires
        0 <= f.0 < 9,
        0 <= f.1 < 9,
        pawn_legal(h, v, f, o, mv),
    ensures
        mv matches Move::Pawn { row, col } && reach(wall_steps(h, v), src, f.0 * 9 + f.1) == reach(
            wall_steps(h, v),
            src,
            row * 9 + col,
        ),
{
    let d = choose|d: Sq| #[trigger] unit(d) && pawn_legal_dir(h, v, f, o, d, mv);
    let n = shifted(f, d);
    lemma_step_reach(h, v, src, f, d);
    if n == o {
        if open_from(h, v, n, d) {
            lemma_step_reach(h, v, src, n, d);
        } else {
            let a = choose|a: Sq| #[trigger]
                across(d, a) && open_from(h, v, n, a) && mv == pawn_to(shifted(n, a));
            lemma_step_reach(h, v, src, n, a);
        }
    }
}

/// Play never closes anybody in: from a position where both players have a
/// way, every legal move leads to one where both have a way.
pub proof fn lemma_legal_keeps_paths(b: Board, mode: PawnGenMode, mv: Move, after: Board)
    requires
        b.wf(),
        both_have_paths(b),
        legal_moves(b, mode).contains(mv),
        b.leads_to(mv, after),
    ensures
        both_have_paths(after),
{
    lemma_legal_fits(b, mode, mv);
    assert(after.pawns[0] == after.pawns@[0] && after.pawns[1] == after.pawns@[1]);
    assert(b.pawns[0] == b.pawns@[0] && b.pawns[1] == b.pawns@[1]);
    match mv {
        Move::Pawn { row, col } => {
            let h = b.horizontal_walls;
            let v = b.vertical_walls;
            let f = at(b, b.side_to_move);
            let o = at(b, b.side_to_move.opposite_spec());
            lemma_pawn_reach(h, v, goal_squares(b.side_to_move), f, o, mv);
            assert(board_steps(after) == board_steps(b));
            assert(pawn_sq(after, b.side_to_move) == row * 9 + col);
            assert(pawn_sq(after, b.side_to_move.opposite_spec()) == pawn_sq(
                b,
                b.side_to_move.opposite_spec(),
            ));
            assert(has_path(after, b.side_to_move));
            assert(has_path(after, b.side_to_move.opposite_spec()));
        },
        Move::Wall { row, col, orientation } => {
            lemma_wall_moves_exact(b, mv);
            let placed = b.with_wall(row as int, col as int, orientation, true);
            assert(board_steps(after) == board_steps(placed));
            assert(both_have_paths(placed));
        },
    }
}

} // verus!
