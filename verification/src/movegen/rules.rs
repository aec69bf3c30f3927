//! The rules of movement, as mathematics.

use vstd::prelude::*;

use crate::path::graph::both_have_paths;
use crate::position::board::{Board, Move, Player, WallOrientation};
use crate::util::bits::ascending;
use crate::util::grid::{open_step, slot};

verus! {

/// A square or an offset between squares.
pub type Sq = (int, int);

pub open spec fn shifted(a: Sq, d: Sq) -> Sq {
    (a.0 + d.0, a.1 + d.1)
}

/// The pawn move to a square.
pub open spec fn pawn_to(a: Sq) -> Move {
    Move::Pawn { row: a.0 as u8, col: a.1 as u8 }
}

pub open spec fn open_from(h: u64, v: u64, a: Sq, d: Sq) -> bool {
    open_step(h, v, a.0, a.1, d.0, d.1)
}

/// The slide from `a` by `d`, if it is open.
pub open spec fn slide(h: u64, v: u64, a: Sq, d: Sq) -> Seq<Move> {
    if open_from(h, v, a, d) {
        seq![pawn_to(shifted(a, d))]
    } else {
        Seq::empty()
    }
}

/// Pawn moves of one direction `d` from `f` with the opponent on `o`: the
/// step; over an opponent in the way, the straight jump; where that is
/// blocked, the slides to the opponent's sides `a` and `b`.
pub open spec fn dir_moves(h: u64, v: u64, f: Sq, o: Sq, d: Sq, a: Sq, b: Sq) -> Seq<Move> {
    let n = shifted(f, d);
    if !open_from(h, v, f, d) {
        Seq::empty()
    } else if n != o {
        seq![pawn_to(n)]
    } else if open_from(h, v, n, d) {
        seq![pawn_to(shifted(n, d))]
    } else {
        slide(h, v, n, a) + slide(h, v, n, b)
    }
}

/// All pawn moves, directions and slides in the order row + 1, column + 1,
/// row - 1, column - 1.
pub open spec fn pawn_moves(h: u64, v: u64, f: Sq, o: Sq) -> Seq<Move> {
    dir_moves(h, v, f, o, (1, 0), (0, 1), (0, -1)) + dir_moves(
        h,
        v,
        f,
        o,
        (0, 1),
        (1, 0),
        (-1, 0),
    ) + dir_moves(h, v, f, o, (-1, 0), (0, 1), (0, -1)) + dir_moves(
        h,
        v,
        f,
        o,
        (0, -1),
        (1, 0),
        (-1, 0),
    )
}

/// All pawn moves by axis: row - 1, row + 1, column + 1, column - 1.
pub open spec fn pawn_moves_by_axis(h: u64, v: u64, f: Sq, o: Sq) -> Seq<Move> {
    dir_moves(h, v, f, o, (-1, 0), (0, -1), (0, 1)) + dir_moves(
        h,
        v,
        f,
        o,
        (1, 0),
        (0, -1),
        (0, 1),
    ) + dir_moves(h, v, f, o, (0, 1), (-1, 0), (1, 0)) + dir_moves(
        h,
        v,
        f,
        o,
        (0, -1),
        (-1, 0),
        (1, 0),
    )
}

/// The square of a player as integers.
pub open spec fn at(b: Board, player: Player) -> Sq {
    let p = b.pawns[player.index_spec()];
    (p.0 as int, p.1 as int)
}

/// The pawn moves of a player, scalar order.
pub open spec fn player_pawn_moves(b: Board, player: Player) -> Seq<Move> {
    pawn_moves(
        b.horizontal_walls,
        b.vertical_walls,
        at(b, player),
        at(b, player.opposite_spec()),
    )
}

/// The pawn moves of the player on turn, axis order.
pub open spec fn mover_pawn_moves_by_axis(b: Board) -> Seq<Move> {
    pawn_moves_by_axis(
        b.horizontal_walls,
        b.vertical_walls,
        at(b, b.side_to_move),
        at(b, b.side_to_move.opposite_spec()),
    )
}

/// One of the four unit offsets.
pub open spec fn unit(d: Sq) -> bool {
    d == (1int, 0int) || d == (-1int, 0int) || d == (0int, 1int) || d == (0int, -1int)
}

/// Offsets at right angles.
pub open spec fn across(d: Sq, a: Sq) -> bool {
    unit(a) && (a.0 == 0) != (d.0 == 0)
}

/// `mv` is a legal pawn move from `f` with the opponent on `o`: a step to a
/// free square; a jump over the opponent; or, where the jump is blocked, a
/// slide to the opponent's side.
pub open spec fn pawn_legal(h: u64, v: u64, f: Sq, o: Sq, mv: Move) -> bool {
    exists|d: Sq| #[trigger] unit(d) && pawn_legal_dir(h, v, f, o, d, mv)
}

/// The same for one direction.
pub open spec fn pawn_legal_dir(h: u64, v: u64, f: Sq, o: Sq, d: Sq, mv: Move) -> bool {
    let n = shifted(f, d);
    &&& open_from(h, v, f, d)
    &&& {
        ||| (n != o && mv == pawn_to(n))
        ||| (n == o && open_from(h, v, n, d) && mv == pawn_to(shifted(n, d)))
        ||| (n == o && !open_from(h, v, n, d) && exists|a: Sq| #[trigger]
            across(d, a) && open_from(h, v, n, a) && mv == pawn_to(shifted(n, a)))
    }
}

/// Slides found one by one are the slides that exist.
proof fn lemma_dir_legal(h: u64, v: u64, f: Sq, o: Sq, d: Sq, a: Sq, b: Sq, mv: Move)
    requires
        unit(d),
        across(d, a),
        across(d, b),
        a != b,
    ensures
        dir_moves(h, v, f, o, d, a, b).contains(mv) == pawn_legal_dir(h, v, f, o, d, mv),
{
    let n = shifted(f, d);
    let s = dir_moves(h, v, f, o, d, a, b);
    assert forall|x: Sq| across(d, x) implies x == a || x == b by {}
    if open_from(h, v, f, d) && n == o && !open_from(h, v, n, d) {
        let p = slide(h, v, n, a);
        let q = slide(h, v, n, b);
        if open_from(h, v, n, a) {
            assert(s[0] == pawn_to(shifted(n, a)));
        }
        if open_from(h, v, n, b) {
            assert(s[p.len() as int] == pawn_to(shifted(n, b)));
        }
    } else if s.len() > 0 {
        assert(s[0] == s.first());
    }
}

proof fn lemma_contains4(a: Seq<Move>, b: Seq<Move>, c: Seq<Move>, d: Seq<Move>, mv: Move)
    ensures
        (a + b + c + d).contains(mv) == (a.contains(mv) || b.contains(mv) || c.contains(mv)
            || d.contains(mv)),
{
    let s = a + b + c + d;
    if a.contains(mv) {
        let k = choose|k: int| 0 <= k < a.len() && a[k] == mv;
        assert(s[k] == mv);
    }
    if b.contains(mv) {
        let k = choose|k: int| 0 <= k < b.len() && b[k] == mv;
        assert(s[a.len() + k] == mv);
    }
    if c.contains(mv) {
        let k = choose|k: int| 0 <= k < c.len() && c[k] == mv;
        assert(s[a.len() + b.len() + k] == mv);
    }
    if d.contains(mv) {
        let k = choose|k: int| 0 <= k < d.len() && d[k] == mv;
        assert(s[a.len() + b.len() + c.len() + k] == mv);
    }
    if s.contains(mv) {
        let k = choose|k: int| 0 <= k < s.len() && s[k] == mv;
        if k < a.len() {
            assert(a[k] == mv);
        } else if k < a.len() + b.len() {
            assert(b[k - a.len()] == mv);
        } else if k < a.len() + b.len() + c.len() {
            assert(c[k - a.len() - b.len()] == mv);
        } else {
            assert(d[k - a.len() - b.len() - c.len()] == mv);
        }
    }
}

/// The generated pawn moves, in either order, are exactly the legal ones.
pub proof fn lemma_pawn_moves_exact(h: u64, v: u64, f: Sq, o: Sq, mv: Move)
    ensures
        pawn_moves(h, v, f, o).contains(mv) == pawn_legal(h, v, f, o, mv),
        pawn_moves_by_axis(h, v, f, o).contains(mv) == pawn_legal(h, v, f, o, mv),
{
    let s: Sq = (1, 0);
    let e: Sq = (0, 1);
    let n: Sq = (-1, 0);
    let w: Sq = (0, -1);
    assert(unit(s) && unit(e) && unit(n) && unit(w));
    lemma_dir_legal(h, v, f, o, s, e, w, mv);
    lemma_dir_legal(h, v, f, o, e, s, n, mv);
    lemma_dir_legal(h, v, f, o, n, e, w, mv);
    lemma_dir_legal(h, v, f, o, w, s, n, mv);
    lemma_dir_legal(h, v, f, o, n, w, e, mv);
    lemma_dir_legal(h, v, f, o, s, w, e, mv);
    lemma_dir_legal(h, v, f, o, e, n, s, mv);
    lemma_dir_legal(h, v, f, o, w, n, s, mv);
    lemma_contains4(
        dir_moves(h, v, f, o, s, e, w),
        dir_moves(h, v, f, o, e, s, n),
        dir_moves(h, v, f, o, n, e, w),
        dir_moves(h, v, f, o, w, s, n),
        mv,
    );
    lemma_contains4(
        dir_moves(h, v, f, o, n, w, e),
        dir_moves(h, v, f, o, s, w, e),
        dir_moves(h, v, f, o, e, n, s),
        dir_moves(h, v, f, o, w, n, s),
        mv,
    );
}

/// A pawn has at most five moves.
pub proof fn lemma_pawn_moves_len(h: u64, v: u64, f: Sq, o: Sq)
    ensures
        pawn_moves(h, v, f, o).len() <= 5,
        pawn_moves_by_axis(h, v, f, o).len() <= 5,
{
}

/// Where a move of direction `d` lands: one step away if the opponent is not
/// in the way, else two steps away, straight on or to a side.
spec fn landing(f: Sq, o: Sq, d: Sq, a: Sq, b: Sq, t: Sq) -> bool {
    let n = shifted(f, d);
    &&& 0 <= t.0 < 9
    &&& 0 <= t.1 < 9
    &&& n != o ==> t == n
    &&& n == o ==> t == shifted(n, d) || t == shifted(n, a) || t == shifted(n, b)
}

/// The square a pawn move goes to.
spec fn target(mv: Move) -> Sq {
    match mv {
        Move::Pawn { row, col } => (row as int, col as int),
        Move::Wall { .. } => (-1, -1),
    }
}

proof fn lemma_landing(h: u64, v: u64, f: Sq, o: Sq, d: Sq, a: Sq, b: Sq, i: int)
    requires
        0 <= i < dir_moves(h, v, f, o, d, a, b).len(),
    ensures
        landing(f, o, d, a, b, target(dir_moves(h, v, f, o, d, a, b)[i])),
{
}

proof fn lemma_landings_differ(f: Sq, o: Sq, d: Sq, a: Sq, b: Sq, d2: Sq, a2: Sq, b2: Sq, t: Sq)
    requires
        unit(d),
        unit(d2),
        d != d2,
        across(d, a),
        across(d, b),
        across(d2, a2),
        across(d2, b2),
        landing(f, o, d, a, b, t),
    ensures
        !landing(f, o, d2, a2, b2, t),
{
}

/// Moves of one direction differ.
proof fn lemma_dir_differs(h: u64, v: u64, f: Sq, o: Sq, d: Sq, a: Sq, b: Sq)
    requires
        across(d, a),
        across(d, b),
        a != b,
    ensures
        dir_moves(h, v, f, o, d, a, b).no_duplicates(),
{
    let s = dir_moves(h, v, f, o, d, a, b);
    let n = shifted(f, d);
    assert forall|i: int, j: int| 0 <= i < j < s.len() implies s[i] != s[j] by {
        assert(s =~= slide(h, v, n, a) + slide(h, v, n, b));
        assert(target(s[i]) == shifted(n, a));
        assert(target(s[j]) == shifted(n, b));
    }
}

/// Moves of different directions differ, and so do those of one.
proof fn lemma_dirs_differ(h: u64, v: u64, f: Sq, o: Sq, d: Sq, a: Sq, b: Sq, d2: Sq, a2: Sq, b2: Sq)
    requires
        unit(d),
        unit(d2),
        d != d2,
        across(d, a),
        across(d, b),
        a != b,
        across(d2, a2),
        across(d2, b2),
    ensures
        dir_moves(h, v, f, o, d, a, b).no_duplicates(),
        forall|i: int, j: int|
            0 <= i < dir_moves(h, v, f, o, d, a, b).len() && 0 <= j < dir_moves(
                h,
                v,
                f,
                o,
                d2,
                a2,
                b2,
            ).len() ==> dir_moves(h, v, f, o, d, a, b)[i] != dir_moves(h, v, f, o, d2, a2, b2)[j],
{
    let s = dir_moves(h, v, f, o, d, a, b);
    let t = dir_moves(h, v, f, o, d2, a2, b2);
    lemma_dir_differs(h, v, f, o, d, a, b);
    assert forall|i: int, j: int| 0 <= i < s.len() && 0 <= j < t.len() implies s[i] != t[j] by {
        lemma_landing(h, v, f, o, d, a, b, i);
        lemma_landing(h, v, f, o, d2, a2, b2, j);
        lemma_landings_differ(f, o, d, a, b, d2, a2, b2, target(s[i]));
    }
}

proof fn lemma_join_distinct(a: Seq<Move>, b: Seq<Move>)
    requires
        a.no_duplicates(),
        b.no_duplicates(),
        forall|i: int, j: int| 0 <= i < a.len() && 0 <= j < b.len() ==> a[i] != b[j],
    ensures
        (a + b).no_duplicates(),
{
}

proof fn lemma_distinct4(
    h: u64,
    v: u64,
    f: Sq,
    o: Sq,
    d: (Sq, Sq, Sq, Sq),
    a: (Sq, Sq, Sq, Sq),
    b: (Sq, Sq, Sq, Sq),
)
    requires
        0 <= f.0 < 9,
        0 <= f.1 < 9,
        unit(d.0) && unit(d.1) && unit(d.2) && unit(d.3),
        d.0 != d.1 && d.0 != d.2 && d.0 != d.3 && d.1 != d.2 && d.1 != d.3 && d.2 != d.3,
        across(d.0, a.0) && across(d.1, a.1) && across(d.2, a.2) && across(d.3, a.3),
        across(d.0, b.0) && across(d.1, b.1) && across(d.2, b.2) && across(d.3, b.3),
        a.0 != b.0 && a.1 != b.1 && a.2 != b.2 && a.3 != b.3,
    ensures
        (dir_moves(h, v, f, o, d.0, a.0, b.0) + dir_moves(h, v, f, o, d.1, a.1, b.1) + dir_moves(
            h,
            v,
            f,
            o,
            d.2,
            a.2,
            b.2,
        ) + dir_moves(h, v, f, o, d.3, a.3, b.3)).no_duplicates(),
{
    let s0 = dir_moves(h, v, f, o, d.0, a.0, b.0);
    let s1 = dir_moves(h, v, f, o, d.1, a.1, b.1);
    let s2 = dir_moves(h, v, f, o, d.2, a.2, b.2);
    let s3 = dir_moves(h, v, f, o, d.3, a.3, b.3);
    lemma_dirs_differ(h, v, f, o, d.0, a.0, b.0, d.1, a.1, b.1);
    lemma_dirs_differ(h, v, f, o, d.0, a.0, b.0, d.2, a.2, b.2);
    lemma_dirs_differ(h, v, f, o, d.0, a.0, b.0, d.3, a.3, b.3);
    lemma_dirs_differ(h, v, f, o, d.1, a.1, b.1, d.2, a.2, b.2);
    lemma_dirs_differ(h, v, f, o, d.1, a.1, b.1, d.3, a.3, b.3);
    lemma_dirs_differ(h, v, f, o, d.2, a.2, b.2, d.3, a.3, b.3);
    lemma_dirs_differ(h, v, f, o, d.3, a.3, b.3, d.0, a.0, b.0);
    lemma_join_distinct(s0, s1);
    lemma_join_distinct(s0 + s1, s2);
    lemma_join_distinct(s0 + s1 + s2, s3);
}

/// No pawn move is listed twice.
pub proof fn lemma_pawn_moves_distinct(h: u64, v: u64, f: Sq, o: Sq)
    requires
        0 <= f.0 < 9,
        0 <= f.1 < 9,
    ensures
        pawn_moves(h, v, f, o).no_duplicates(),
        pawn_moves_by_axis(h, v, f, o).no_duplicates(),
{
    let s: Sq = (1, 0);
    let e: Sq = (0, 1);
    let n: Sq = (-1, 0);
    let w: Sq = (0, -1);
    lemma_distinct4(h, v, f, o, (s, e, n, w), (e, s, e, s), (w, n, w, n));
    lemma_distinct4(h, v, f, o, (n, s, e, w), (w, w, n, n), (e, e, s, s));
}

/// A pawn move onto the board.
pub open spec fn lands_on_board(mv: Move) -> bool {
    mv matches Move::Pawn { row, col } && row < 9 && col < 9
}

proof fn lemma_dir_lands(h: u64, v: u64, f: Sq, o: Sq, d: Sq, a: Sq, b: Sq)
    requires
        0 <= f.0 < 9,
        0 <= f.1 < 9,
    ensures
        forall|k: int|
            0 <= k < dir_moves(h, v, f, o, d, a, b).len() ==> lands_on_board(
                #[trigger] dir_moves(h, v, f, o, d, a, b)[k],
            ),
{
}

/// Every pawn move stays on the board.
pub proof fn lemma_pawn_moves_land(h: u64, v: u64, f: Sq, o: Sq)
    requires
        0 <= f.0 < 9,
        0 <= f.1 < 9,
    ensures
        forall|k: int|
            0 <= k < pawn_moves(h, v, f, o).len() ==> lands_on_board(
                #[trigger] pawn_moves(h, v, f, o)[k],
            ),
        forall|k: int|
            0 <= k < pawn_moves_by_axis(h, v, f, o).len() ==> lands_on_board(
                #[trigger] pawn_moves_by_axis(h, v, f, o)[k],
            ),
{
    let s: Sq = (1, 0);
    let e: Sq = (0, 1);
    let n: Sq = (-1, 0);
    let w: Sq = (0, -1);
    lemma_dir_lands(h, v, f, o, s, e, w);
    lemma_dir_lands(h, v, f, o, e, s, n);
    lemma_dir_lands(h, v, f, o, n, e, w);
    lemma_dir_lands(h, v, f, o, w, s, n);
    lemma_dir_lands(h, v, f, o, n, w, e);
    lemma_dir_lands(h, v, f, o, s, w, e);
    lemma_dir_lands(h, v, f, o, e, n, s);
    lemma_dir_lands(h, v, f, o, w, n, s);
    lemma_all4(
        dir_moves(h, v, f, o, s, e, w),
        dir_moves(h, v, f, o, e, s, n),
        dir_moves(h, v, f, o, n, e, w),
        dir_moves(h, v, f, o, w, s, n),
    );
    lemma_all4(
        dir_moves(h, v, f, o, n, w, e),
        dir_moves(h, v, f, o, s, w, e),
        dir_moves(h, v, f, o, e, n, s),
        dir_moves(h, v, f, o, w, n, s),
    );
}

proof fn lemma_all4(a: Seq<Move>, b: Seq<Move>, c: Seq<Move>, d: Seq<Move>)
    requires
        forall|k: int| 0 <= k < a.len() ==> lands_on_board(#[trigger] a[k]),
        forall|k: int| 0 <= k < b.len() ==> lands_on_board(#[trigger] b[k]),
        forall|k: int| 0 <= k < c.len() ==> lands_on_board(#[trigger] c[k]),
        forall|k: int| 0 <= k < d.len() ==> lands_on_board(#[trigger] d[k]),
    ensures
        forall|k: int|
            0 <= k < (a + b + c + d).len() ==> lands_on_board(#[trigger] (a + b + c + d)[k]),
{
}

// --- walls ---

/// A wall at the slot would overlap, cross or run into a wall already there.
pub open spec fn collides(b: Board, r: int, c: int, orientation: WallOrientation) -> bool {
    let h = b.horizontal_walls;
    let v = b.vertical_walls;
    ||| slot(h, r, c)
    ||| slot(v, r, c)
    ||| match orientation {
        WallOrientation::Horizontal => slot(h, r, c - 1) || slot(h, r, c + 1),
        WallOrientation::Vertical => slot(v, r - 1, c) || slot(v, r + 1, c),
    }
}

/// The first end of the wall (low column, or high row) lies on the border or
/// meets another wall.
pub open spec fn touches_a(b: Board, r: int, c: int, orientation: WallOrientation) -> bool {
    let h = b.horizontal_walls;
    let v = b.vertical_walls;
    match orientation {
        WallOrientation::Horizontal => c == 0 || slot(v, r, c - 1) || slot(v, r + 1, c - 1)
            || slot(v, r - 1, c - 1) || slot(h, r, c - 2),
        WallOrientation::Vertical => r == 7 || slot(h, r + 1, c) || slot(h, r + 1, c - 1) || slot(
            h,
            r + 1,
            c + 1,
        ) || slot(v, r + 2, c),
    }
}

/// The second end of the wall (high column, or low row) lies on the border or
/// meets another wall.
pub open spec fn touches_b(b: Board, r: int, c: int, orientation: WallOrientation) -> bool {
    let h = b.horizontal_walls;
    let v = b.vertical_walls;
    match orientation {
        WallOrientation::Horizontal => c == 7 || slot(v, r, c + 1) || slot(v, r + 1, c + 1)
            || slot(v, r - 1, c + 1) || slot(h, r, c + 2),
        WallOrientation::Vertical => r == 0 || slot(h, r - 1, c) || slot(h, r - 1, c - 1) || slot(
            h,
            r - 1,
            c + 1,
        ) || slot(v, r - 2, c),
    }
}

/// The middle of the wall meets another wall.
pub open spec fn touches_middle(b: Board, r: int, c: int, orientation: WallOrientation) -> bool {
    let h = b.horizontal_walls;
    let v = b.vertical_walls;
    match orientation {
        WallOrientation::Horizontal => slot(v, r + 1, c) || slot(v, r - 1, c),
        WallOrientation::Vertical => slot(h, r, c - 1) || slot(h, r, c + 1),
    }
}

/// At least two of the wall's three points are held: only then can it close a
/// way off.
pub open spec fn anchored(b: Board, r: int, c: int, orientation: WallOrientation) -> bool {
    let x = touches_a(b, r, c, orientation);
    let y = touches_b(b, r, c, orientation);
    let m = touches_middle(b, r, c, orientation);
    (x && y) || (x && m) || (y && m)
}

/// With a wall at the slot both players still have a way.
pub open spec fn keeps_paths(b: Board, r: int, c: int, orientation: WallOrientation) -> bool {
    both_have_paths(b.with_wall(r, c, orientation, true))
}

/// The wall move of slot number `i`.
pub open spec fn wall_at(i: int, orientation: WallOrientation) -> Move {
    Move::Wall { row: (i / 8) as u8, col: (i % 8) as u8, orientation }
}

/// The wall moves of slot numbers.
pub open spec fn wall_list(slots: Seq<int>, orientation: WallOrientation) -> Seq<Move> {
    slots.map_values(|i: int| wall_at(i, orientation))
}

/// Slot number `i` takes a wall that cannot close anything off.
pub open spec fn loose(b: Board, i: int, orientation: WallOrientation) -> bool {
    !collides(b, i / 8, i % 8, orientation) && !anchored(b, i / 8, i % 8, orientation)
}

/// Slot number `i` takes a wall that might close something off, but does not.
pub open spec fn tested(b: Board, i: int, orientation: WallOrientation) -> bool {
    !collides(b, i / 8, i % 8, orientation) && anchored(b, i / 8, i % 8, orientation)
        && keeps_paths(b, i / 8, i % 8, orientation)
}

/// The wall moves of one orientation: first the loose ones, then the tested ones.
pub open spec fn oriented_walls(b: Board, orientation: WallOrientation) -> Seq<Move> {
    wall_list(ascending(|i: int| loose(b, i, orientation), 0, 64), orientation) + wall_list(
        ascending(|i: int| tested(b, i, orientation), 0, 64),
        orientation,
    )
}

/// All wall moves, horizontal ones first, whatever walls the player has left.
pub open spec fn wall_moves(b: Board) -> Seq<Move> {
    oriented_walls(b, WallOrientation::Horizontal) + oriented_walls(b, WallOrientation::Vertical)
}

/// There are at most 128 wall moves.
pub proof fn lemma_wall_moves_len(b: Board)
    ensures
        oriented_walls(b, WallOrientation::Horizontal).len() <= 64,
        oriented_walls(b, WallOrientation::Vertical).len() <= 64,
        wall_moves(b).len() <= 128,
{
    lemma_oriented_len(b, WallOrientation::Horizontal);
    lemma_oriented_len(b, WallOrientation::Vertical);
}

proof fn lemma_oriented_len(b: Board, o: WallOrientation)
    ensures
        oriented_walls(b, o).len() <= 64,
{
    lemma_disjoint_len(|i: int| loose(b, i, o), |i: int| tested(b, i, o), 0, 64);
}

proof fn lemma_disjoint_len(p: spec_fn(int) -> bool, q: spec_fn(int) -> bool, lo: int, hi: int)
    requires
        lo <= hi,
        forall|i: int| !(#[trigger] p(i) && q(i)),
    ensures
        ascending(p, lo, hi).len() + ascending(q, lo, hi).len() <= hi - lo,
    decreases hi - lo,
{
    if lo < hi {
        lemma_disjoint_len(p, q, lo + 1, hi);
    }
}

} // verus!
