//! What gaps, flanks and collections promise.

use vstd::prelude::*;

use crate::cat::attention::CorridorAttention;
use crate::cat::collect::{best_heat_of, hottest_pawn, kept, Sieve};
use crate::cat::constants::CAT_HOT_CM;
use crate::cat::moves::{detour, denial_heat, denies, hottest, place_heat};
use crate::cat::order::{
    by_turns, column, flank, longer, mirrored, on_flank, quarter, spread, Scored,
};
use crate::cat::prune::{
    blocks_gap, blocks_step, cross_gap, in_gap_zone, is_mouth, our_gain_spec, opp_gain_spec,
    shape_bonus, skipped, touch_heat, wall_on_grid, walled, worth_searching,
};
use crate::movegen::legal::{legal_moves, PawnGenMode};
use crate::movegen::topology::lemma_wall_shortens_nothing;
use crate::path::graph::{
    board_steps, dist, goal_dist, goal_squares, has_path, lemma_dist_bound, lemma_goal_dist_bound,
    pawn_sq, reach,
};
use crate::position::board::{Board, Move, Player, WallOrientation};
use crate::util::bits::bit128;
use crate::util::grid::slot;

verus! {

/// Steps along the board between two squares, as if no wall stood.
pub open spec fn board_steps_apart(a: int, b: int) -> int {
    let dr = a / 9 - b / 9;
    let dc = a % 9 - b % 9;
    (if dr < 0 {
        -dr
    } else {
        dr
    }) + (if dc < 0 {
        -dc
    } else {
        dc
    })
}

/// A mouth is a square of the region with a neighbour on the board outside it,
/// and every such square is one. Without a square outside there is none.
pub proof fn lemma_mouths_border_the_outside(region: u128, sq: int)
    requires
        0 <= sq < 81,
    ensures
        is_mouth(region, sq) <==> bit128(region, sq) && exists|t: int|
            0 <= t < 81 && board_steps_apart(sq, t) == 1 && !#[trigger] bit128(region, t),
        (forall|t: int| 0 <= t < 81 ==> #[trigger] bit128(region, t)) ==> !is_mouth(region, sq),
{
    if sq >= 9 {
        assert(board_steps_apart(sq, sq - 9) == 1);
    }
    if sq < 72 {
        assert(board_steps_apart(sq, sq + 9) == 1);
    }
    if sq % 9 > 0 {
        assert(board_steps_apart(sq, sq - 1) == 1);
    }
    if sq % 9 < 8 {
        assert(board_steps_apart(sq, sq + 1) == 1);
    }
    if exists|t: int|
        0 <= t < 81 && board_steps_apart(sq, t) == 1 && !#[trigger] bit128(region, t) {
        let t = choose|t: int|
            0 <= t < 81 && board_steps_apart(sq, t) == 1 && !#[trigger] bit128(region, t);
        assert((t == sq - 9 && sq >= 9) || (t == sq + 9 && sq < 72) || (t == sq - 1 && sq % 9 > 0)
            || (t == sq + 1 && sq % 9 < 8));
    }
}

/// The zone of the gaps is what lies within one step of a mouth.
pub proof fn lemma_zone_is_near_a_mouth(region: u128, sq: int)
    requires
        0 <= sq < 81,
    ensures
        in_gap_zone(region, sq) <==> exists|t: int|
            0 <= t < 81 && board_steps_apart(sq, t) <= 1 && #[trigger] is_mouth(region, t),
{
    if in_gap_zone(region, sq) {
        if is_mouth(region, sq) {
            assert(board_steps_apart(sq, sq) == 0);
        } else if sq >= 9 && is_mouth(region, sq - 9) {
            assert(board_steps_apart(sq, sq - 9) == 1);
        } else if sq < 72 && is_mouth(region, sq + 9) {
            assert(board_steps_apart(sq, sq + 9) == 1);
        } else if sq % 9 > 0 && is_mouth(region, sq - 1) {
            assert(board_steps_apart(sq, sq - 1) == 1);
        } else {
            assert(board_steps_apart(sq, sq + 1) == 1);
        }
    }
    if exists|t: int|
        0 <= t < 81 && board_steps_apart(sq, t) <= 1 && #[trigger] is_mouth(region, t) {
        let t = choose|t: int|
            0 <= t < 81 && board_steps_apart(sq, t) <= 1 && #[trigger] is_mouth(region, t);
        assert(t == sq || (t == sq - 9 && sq >= 9) || (t == sq + 9 && sq < 72) || (t == sq - 1
            && sq % 9 > 0) || (t == sq + 1 && sq % 9 < 8));
    }
}

/// The square is one of the four around a slot.
pub open spec fn around(row: int, col: int, sq: int) -> bool {
    &&& 0 <= sq < 81
    &&& row <= sq / 9 <= row + 1
    &&& col <= sq % 9 <= col + 1
}

/// Which walls are searched: never one with nothing of the region around it;
/// otherwise always one that fills or narrows a gap, or has a square of the gaps'
/// zone around it; always one inside the region that cuts the opponent's way or is
/// hot; and never one that is none of these.
pub proof fn lemma_walls_worth_searching(
    b: Board,
    mv: Move,
    cat: CorridorAttention,
    region: u128,
    zone: u128,
    path: Seq<u8>,
    len: int,
)
    requires
        wall_on_grid(mv),
    ensures
        ({
            let searched = worth_searching(b, mv, cat, region, zone, path, len);
            match mv {
                Move::Pawn { .. } => !searched && !skipped(b, mv, region, zone),
                Move::Wall { row, col, orientation } => {
                    let r = row as int;
                    let c = col as int;
                    let shaped = cross_gap(b, r, c, orientation) || blocks_gap(b, r, c, orientation);
                    let live = exists|sq: int|
                        around(r, c, sq) && #[trigger] bit128(region, sq);
                    let inside = forall|sq: int|
                        around(r, c, sq) ==> #[trigger] bit128(region, sq);
                    let near = exists|sq: int| around(r, c, sq) && #[trigger] bit128(zone, sq);
                    let cuts = exists|i: int|
                        0 <= i < len - 1 && blocks_step(
                            mv,
                            #[trigger] path[i] as int,
                            path[i + 1] as int,
                        );
                    let hot = cat.wall_heat(r, c, orientation) >= CAT_HOT_CM;
                    &&& searched ==> live
                    &&& !live ==> skipped(b, mv, region, zone)
                    &&& live && shaped ==> searched
                    &&& live && zone != 0 && near ==> searched
                    &&& inside && (cuts || hot) ==> searched
                    &&& searched ==> shaped || near || cuts || hot
                    &&& inside ==> !skipped(b, mv, region, zone)
                },
            }
        }),
{
    if let Move::Wall { row, col, orientation } = mv {
        let r = row as int;
        let c = col as int;
        let a = r * 9 + c;
        assert(around(r, c, a) && around(r, c, a + 1) && around(r, c, a + 9) && around(
            r,
            c,
            a + 10,
        ));
        assert forall|sq: int| around(r, c, sq) implies sq == a || sq == a + 1 || sq == a + 9 || sq
            == a + 10 by {}
    }
}

/// A wall through a gap touches two walls that cross its line, one on each side;
/// one beside a gap is none itself, and has the gap next to it along its own line.
/// On a board without walls there is neither.
pub proof fn lemma_gaps_need_walls(b: Board, r: int, c: int, o: WallOrientation)
    ensures
        cross_gap(b, r, c, o) ==> !blocks_gap(b, r, c, o),
        blocks_gap(b, r, c, WallOrientation::Horizontal) ==> exists|d: int|
            (d == c - 1 || d == c + 1) && 1 <= d <= 6 && #[trigger] slot(b.vertical_walls, r - 1, d)
                && slot(b.vertical_walls, r + 1, d),
        blocks_gap(b, r, c, WallOrientation::Vertical) ==> exists|d: int|
            (d == r - 1 || d == r + 1) && 1 <= d <= 6 && #[trigger] slot(
                b.horizontal_walls,
                d,
                c - 1,
            ) && slot(b.horizontal_walls, d, c + 1),
        blocks_gap(b, r, c, WallOrientation::Horizontal) ==> {
            ||| 1 <= c - 1 <= 6 && (slot(b.horizontal_walls, r, c - 1) || cross_gap(
                b,
                r,
                c - 1,
                WallOrientation::Horizontal,
            ))
            ||| 1 <= c + 1 <= 6 && (slot(b.horizontal_walls, r, c + 1) || cross_gap(
                b,
                r,
                c + 1,
                WallOrientation::Horizontal,
            ))
        },
        blocks_gap(b, r, c, WallOrientation::Vertical) ==> {
            ||| 1 <= r - 1 <= 6 && (slot(b.vertical_walls, r - 1, c) || cross_gap(
                b,
                r - 1,
                c,
                WallOrientation::Vertical,
            ))
            ||| 1 <= r + 1 <= 6 && (slot(b.vertical_walls, r + 1, c) || cross_gap(
                b,
                r + 1,
                c,
                WallOrientation::Vertical,
            ))
        },
        slot(b.walls(o), r, c) ==> !cross_gap(b, r, c, o),
        0 <= r < 8 && 0 <= c < 8 && !slot(b.horizontal_walls, r, c) && slot(
            b.vertical_walls,
            r - 1,
            c,
        ) && slot(b.vertical_walls, r + 1, c) ==> cross_gap(b, r, c, WallOrientation::Horizontal),
        0 <= r < 8 && 0 <= c < 8 && !slot(b.vertical_walls, r, c) && slot(
            b.horizontal_walls,
            r,
            c - 1,
        ) && slot(b.horizontal_walls, r, c + 1) ==> cross_gap(b, r, c, WallOrientation::Vertical),
{
}

/// The shape of a wall counts only where it is hot: most in a gap, less beside
/// one, nothing elsewhere and nothing for a pawn move.
pub proof fn lemma_shapes_in_order(
    b: Board,
    x: Move,
    y: Move,
    cat: CorridorAttention,
)
    ensures
        0 <= shape_bonus(b, x, cat) <= 40,
        x is Pawn ==> shape_bonus(b, x, cat) == 0,
        x matches Move::Wall { row, col, orientation } ==> {
            let r = row as int;
            let c = col as int;
            let cold = cat.wall_heat(r, c, orientation) < CAT_HOT_CM && touch_heat(cat, r, c)
                < CAT_HOT_CM;
            let fills = cross_gap(b, r, c, orientation);
            let narrows = blocks_gap(b, r, c, orientation);
            &&& cold ==> shape_bonus(b, x, cat) == 0
            &&& !cold && fills && !(y matches Move::Wall { row, col, orientation } && cross_gap(
                b,
                row as int,
                col as int,
                orientation,
            )) ==> shape_bonus(b, x, cat) > shape_bonus(b, y, cat)
            &&& !cold && narrows ==> shape_bonus(b, x, cat) > 0
            &&& !fills && !narrows ==> shape_bonus(b, x, cat) == 0
        },
{
}

/// The best denial is worth what one of the denied candidates gives, and no denied
/// one gives more; without a hot denied candidate it is worth nothing.
pub proof fn lemma_best_denial(mv: Move, candidates: Seq<Move>, heats: Seq<i32>, k: int)
    requires
        0 <= k <= candidates.len(),
        k <= heats.len(),
    ensures
        ({
            let best = denial_heat(mv, candidates, heats, k);
            &&& best >= 0
            &&& forall|i: int|
                0 <= i < k && denies(mv, #[trigger] candidates[i]) && CAT_HOT_CM <= heats[i]
                    <= i32::MAX / 3 ==> best >= heats[i] + heats[i] / 2
            &&& best > 0 ==> exists|i: int|
                0 <= i < k && denies(mv, #[trigger] candidates[i]) && heats[i] >= CAT_HOT_CM && best
                    <= heats[i] + heats[i] / 2 + 1
        }),
    decreases k,
{
    if k > 0 {
        lemma_best_denial(mv, candidates, heats, k - 1);
        let rest = denial_heat(mv, candidates, heats, k - 1);
        if rest > 0 {
            let i = choose|i: int|
                0 <= i < k - 1 && denies(mv, #[trigger] candidates[i]) && heats[i] >= CAT_HOT_CM
                    && rest <= heats[i] + heats[i] / 2 + 1;
            assert(0 <= i < k && denies(mv, candidates[i]));
        }
    }
}

/// A reference is the heat of one of the moves it is taken of, and none of them is
/// hotter: 0 stands for all moves, 1 for walls, 2 for pawn moves. Heats are below
/// 65,536.
pub proof fn lemma_references_are_hottest(moves: Seq<Move>, heats: Seq<int>, k: int)
    requires
        0 <= k <= moves.len(),
        k <= heats.len(),
        forall|i: int| 0 <= i < k ==> 0 <= #[trigger] heats[i] < 65_536,
    ensures
        ({
            let all = hottest(moves, heats, 0, k);
            let walls = hottest(moves, heats, 1, k);
            let pawns = hottest(moves, heats, 2, k);
            &&& forall|i: int| 0 <= i < k ==> #[trigger] heats[i] <= all
            &&& forall|i: int| 0 <= i < k && moves[i] is Wall ==> #[trigger] heats[i] <= walls
            &&& forall|i: int| 0 <= i < k && moves[i] is Pawn ==> #[trigger] heats[i] <= pawns
            &&& all == walls || all == pawns
            &&& walls <= all && pawns <= all && walls >= 0 && pawns >= 0
            &&& walls > 0 ==> exists|i: int|
                0 <= i < k && moves[i] is Wall && #[trigger] heats[i] == walls
            &&& pawns > 0 ==> exists|i: int|
                0 <= i < k && moves[i] is Pawn && #[trigger] heats[i] == pawns
        }),
    decreases k,
{
    if k > 0 {
        lemma_references_are_hottest(moves, heats, k - 1);
        let w = hottest(moves, heats, 1, k - 1);
        let p = hottest(moves, heats, 2, k - 1);
        if w > 0 {
            let i = choose|i: int|
                0 <= i < k - 1 && moves[i] is Wall && #[trigger] heats[i] == w;
            assert(0 <= i < k && heats[i] == w);
        }
        if p > 0 {
            let i = choose|i: int|
                0 <= i < k - 1 && moves[i] is Pawn && #[trigger] heats[i] == p;
            assert(0 <= i < k && heats[i] == p);
        }
        assert(0 <= heats[k - 1] < 65_536);
    }
}

/// No pawn move of the list is hotter than the hottest, and one is as hot.
pub proof fn lemma_hottest_pawn_move(list: Seq<Move>, cat: CorridorAttention, k: int)
    requires
        0 <= k <= list.len(),
    ensures
        forall|i: int|
            0 <= i < k && (#[trigger] list[i]) is Pawn ==> place_heat(list[i], cat) <= hottest_pawn(
                list,
                cat,
                k,
            ),
        hottest_pawn(list, cat, k) > 0 ==> exists|i: int|
            0 <= i < k && (#[trigger] list[i]) is Pawn && place_heat(list[i], cat) == hottest_pawn(
                list,
                cat,
                k,
            ),
        hottest_pawn(list, cat, k) >= 0,
    decreases k,
{
    if k > 0 {
        lemma_hottest_pawn_move(list, cat, k - 1);
        let h = hottest_pawn(list, cat, k - 1);
        if h > 0 {
            let i = choose|i: int|
                0 <= i < k - 1 && (#[trigger] list[i]) is Pawn && place_heat(list[i], cat) == h;
            assert(list[i] is Pawn);
        }
    }
}

proof fn lemma_flank_members(s: Seq<Scored>, lo: int, hi: int, side: int)
    requires
        0 <= lo <= hi <= s.len(),
    ensures
        forall|i: int|
            0 <= i < on_flank(s, lo, hi, side).len() ==> flank(
                (#[trigger] on_flank(s, lo, hi, side)[i]).0,
            ) == side,
        on_flank(s, lo, hi, side).len() > 0 <==> exists|i: int|
            lo <= i < hi && flank((#[trigger] s[i]).0) == side,
    decreases hi - lo,
{
    if lo < hi {
        lemma_flank_members(s, lo, hi - 1, side);
        if flank(s[hi - 1].0) == side {
            assert(lo <= hi - 1 < hi && flank(s[hi - 1].0) == side);
        } else if on_flank(s, lo, hi - 1, side).len() > 0 {
            let i = choose|i: int| lo <= i < hi - 1 && flank((#[trigger] s[i]).0) == side;
            assert(lo <= i < hi && flank(s[i].0) == side);
        }
    }
}

/// The lesser number.
spec fn lesser(a: int, b: int) -> int {
    if a < b {
        a
    } else {
        b
    }
}

proof fn lemma_turns(a: Seq<Scored>, b: Seq<Scored>, k: int)
    requires
        0 <= k,
    ensures
        ({
            let t = by_turns(a, b, k);
            let m = lesser(lesser(a.len() as int, b.len() as int), k);
            &&& t.len() == lesser(a.len() as int, k) + lesser(b.len() as int, k)
            &&& forall|i: int| 0 <= i < 2 * m && i % 2 == 0 ==> #[trigger] t[i] == a[i / 2]
            &&& forall|i: int| 0 <= i < 2 * m && i % 2 == 1 ==> #[trigger] t[i] == b[i / 2]
            &&& forall|i: int| 2 * m <= i < t.len() && a.len() > m ==> #[trigger] t[i] == a[i - m]
            &&& forall|i: int| 2 * m <= i < t.len() && a.len() <= m ==> #[trigger] t[i] == b[i - m]
        }),
    decreases k,
{
    if k > 0 {
        lemma_turns(a, b, k - 1);
    }
}

/// Moves of a band are spread over the board: left and right by turns, the left
/// first, until one side has no more, and the middle file last.
pub proof fn lemma_flanks_by_turns(s: Seq<Scored>, lo: int, hi: int)
    requires
        0 <= lo <= hi <= s.len(),
    ensures
        ({
            let t = spread(s, lo, hi);
            &&& forall|i: int, j: int|
                0 <= i < j < t.len() && column((#[trigger] t[i]).0) == 4 ==> column(
                    (#[trigger] t[j]).0,
                ) == 4
            &&& (exists|i: int| lo <= i < hi && column((#[trigger] s[i]).0) < 4) ==> t.len() > 0
                && column(t[0].0) < 4
            &&& forall|i: int, j: int|
                0 <= i && i + 1 < j < t.len() && column((#[trigger] t[i]).0) < 4 && column(
                    t[i + 1].0,
                ) < 4 ==> column((#[trigger] t[j]).0) <= 4
            &&& forall|i: int, j: int|
                0 <= i && i + 1 < j < t.len() && column((#[trigger] t[i]).0) > 4 && column(
                    t[i + 1].0,
                ) > 4 ==> column((#[trigger] t[j]).0) >= 4
        }),
{
    let left = on_flank(s, lo, hi, 0);
    let right = on_flank(s, lo, hi, 2);
    let middle = on_flank(s, lo, hi, 1);
    let k = longer(left, right);
    let t = spread(s, lo, hi);
    lemma_flank_members(s, lo, hi, 0);
    lemma_flank_members(s, lo, hi, 2);
    lemma_flank_members(s, lo, hi, 1);
    lemma_turns(left, right, k);
    let u = by_turns(left, right, k);
    let n = u.len() as int;
    let m = lesser(left.len() as int, right.len() as int);
    assert(n == left.len() + right.len());
    assert forall|i: int| 0 <= i < t.len() implies column((#[trigger] t[i]).0) == 4 <==> i >= n by {
        if i >= n {
            assert(t[i] == middle[i - n]);
        } else {
            assert(t[i] == u[i]);
            if i < 2 * m {
                if i % 2 == 0 {
                    assert(u[i] == left[i / 2]);
                } else {
                    assert(u[i] == right[i / 2]);
                }
            } else if left.len() > m {
                assert(u[i] == left[i - m]);
            } else {
                assert(u[i] == right[i - m]);
            }
        }
    }
    assert forall|i: int| 0 <= i < 2 * m implies column((#[trigger] t[i]).0) < 4 <==> i % 2
        == 0 by {
        assert(t[i] == u[i]);
        if i % 2 == 0 {
            assert(u[i] == left[i / 2]);
        } else {
            assert(u[i] == right[i / 2]);
        }
    }
    assert forall|i: int| 2 * m <= i < n implies column((#[trigger] t[i]).0) < 4 <==> left.len()
        > m by {
        assert(t[i] == u[i]);
        if left.len() > m {
            assert(u[i] == left[i - m]);
        } else {
            assert(u[i] == right[i - m]);
        }
    }
    assert forall|i: int, j: int|
        0 <= i && i + 1 < j < t.len() && column((#[trigger] t[i]).0) < 4 && column(t[i + 1].0)
            < 4 implies column((#[trigger] t[j]).0) <= 4 by {
        assert(i + 1 >= 2 * m);
    }
    assert forall|i: int, j: int|
        0 <= i && i + 1 < j < t.len() && column((#[trigger] t[i]).0) > 4 && column(t[i + 1].0)
            > 4 implies column((#[trigger] t[j]).0) >= 4 by {
        assert(i + 1 >= 2 * m);
    }
    if exists|i: int| lo <= i < hi && column((#[trigger] s[i]).0) < 4 {
        let i = choose|i: int| lo <= i < hi && column((#[trigger] s[i]).0) < 4;
        assert(flank(s[i].0) == 0);
        assert(left.len() > 0);
        assert(column(t[0].0) < 4);
    }
}

/// Mirroring changes the flanks and keeps the middle.
pub proof fn lemma_mirror_changes_flanks(mv: Move)
    requires
        column(mv) <= 8,
    ensures
        flank(mirrored(mv)) + flank(mv) == 2,
        column(mirrored(mv)) + column(mv) == 8,
        mirrored(mv) is Wall <==> mv is Wall,
{
}

/// A quarter is nearer to nothing, of the same sign, and the same either way
/// round.
pub proof fn lemma_quarter_rounds_toward_nothing(x: int)
    ensures
        x >= 0 ==> 4 * quarter(x) <= x < 4 * quarter(x) + 4,
        quarter(-x) == -quarter(x),
{
}

/// What a search looks at. Where not only gains are asked for there is something
/// to look at while there is a legal move, and every pawn move is among it; where
/// only gains are, nothing is but pawn moves that shorten the way and walls that
/// lengthen the opponent's.
pub proof fn lemma_collections(c: Sieve)
    ensures
        ({
            let all = legal_moves(c.board, PawnGenMode::O1Lookup);
            let list = c.collection();
            &&& forall|mv: Move| list.contains(mv) ==> #[trigger] all.contains(mv)
            &&& !c.tactical_only && all.len() > 0 ==> list.len() > 0
            &&& !c.tactical_only ==> forall|mv: Move|
                mv is Pawn && #[trigger] all.contains(mv) ==> list.contains(mv)
            &&& c.tactical_only ==> forall|mv: Move| #[trigger]
                list.contains(mv) ==> if mv is Pawn {
                    our_gain_spec(c.board, mv, c.our_dist) > 0
                } else {
                    c.allow_walls && opp_gain_spec(c.board, mv, c.opp_dist) > 0
                }
            &&& c.tactical_only ==> forall|mv: Move|
                mv is Pawn && our_gain_spec(c.board, mv, c.our_dist) > 0 && #[trigger] all.contains(
                    mv,
                ) ==> list.contains(mv)
        }),
{
    let all = legal_moves(c.board, PawnGenMode::O1Lookup);
    let p = |mv: Move| c.keeps(mv);
    lemma_kept_members(all, p, all.len() as int);
}

proof fn lemma_kept_members(list: Seq<Move>, p: spec_fn(Move) -> bool, k: int)
    requires
        0 <= k <= list.len(),
    ensures
        forall|mv: Move| #[trigger]
            kept(list, p, k).contains(mv) ==> list.contains(mv) && p(mv),
        forall|i: int| 0 <= i < k && p(#[trigger] list[i]) ==> kept(list, p, k).contains(list[i]),
    decreases k,
{
    if k > 0 {
        lemma_kept_members(list, p, k - 1);
        let before = kept(list, p, k - 1);
        let after = kept(list, p, k);
        if p(list[k - 1]) {
            assert(after[after.len() - 1] == list[k - 1]);
            assert forall|mv: Move| before.contains(mv) implies after.contains(mv) by {
                let i = choose|i: int| 0 <= i < before.len() && before[i] == mv;
                assert(after[i] == mv);
            }
            assert forall|mv: Move| #[trigger] after.contains(mv) implies list.contains(mv) && p(
                mv,
            ) by {
                let i = choose|i: int| 0 <= i < after.len() && after[i] == mv;
                if i < before.len() {
                    assert(before[i] == mv);
                    assert(before.contains(mv));
                }
            }
        }
    }
}

/// What a wall gains is what the opponent's way grows by, where the opponent keeps
/// one; a wall never gains less than nothing, and a pawn move nothing of this
/// kind. With the opponent shut off it gains up to the penalty.
pub proof fn lemma_walls_gain_what_they_lengthen(b: Board, mv: Move)
    requires
        b.wf(),
        wall_on_grid(mv),
        has_path(b, b.side_to_move.opposite_spec()),
    ensures
        ({
            let them = b.side_to_move.opposite_spec();
            let gained = opp_gain_spec(b, mv, goal_dist(b, them) as int);
            &&& gained >= 0
            &&& mv is Pawn ==> gained == 0
            &&& mv is Wall && has_path(walled(b, mv), them) ==> goal_dist(walled(b, mv), them)
                == goal_dist(b, them) + gained
            &&& mv is Wall && !has_path(walled(b, mv), them) && goal_dist(b, them) <= 99 ==> gained
                == 99 - goal_dist(b, them)
        }),
{
    let them = b.side_to_move.opposite_spec();
    lemma_goal_dist_bound(b, them);
    if let Move::Wall { row, col, orientation } = mv {
        assert(pawn_sq(walled(b, mv), them) == pawn_sq(b, them));
        assert(0 <= pawn_sq(b, them) < 81);
        if has_path(walled(b, mv), them) {
            lemma_wall_shortens_nothing(
                b,
                row as int,
                col as int,
                orientation,
                goal_squares(them),
                pawn_sq(b, them),
            );
            lemma_dist_bound(board_steps(walled(b, mv)), goal_squares(them), pawn_sq(b, them));
        }
    }
}

/// A pawn move gains exactly if the way from where it leads is shorter, and then
/// by the difference; a wall gains nothing of this kind.
pub proof fn lemma_pawns_gain_what_they_shorten(b: Board, mv: Move, our_dist: int)
    requires
        our_dist >= 0,
    ensures
        our_gain_spec(b, mv, our_dist) >= 0,
        mv is Wall ==> our_gain_spec(b, mv, our_dist) == 0,
        mv matches Move::Pawn { row, col } ==> {
            let goal = goal_squares(b.side_to_move);
            let to = row * 9 + col;
            &&& reach(board_steps(b), goal, to) && dist(board_steps(b), goal, to) <= our_dist
                ==> our_dist - our_gain_spec(b, mv, our_dist) == dist(board_steps(b), goal, to)
            &&& reach(board_steps(b), goal, to) && dist(board_steps(b), goal, to) >= our_dist
                ==> our_gain_spec(b, mv, our_dist) == 0
        },
{
}

/// The detour that a wall forces on a player is what the player's way grows by.
pub proof fn lemma_detour_is_the_longer_way(b: Board, mv: Move, player: Player)
    requires
        b.wf(),
        wall_on_grid(mv),
        mv is Wall,
        has_path(walled(b, mv), player),
    ensures
        detour(b, mv, player, goal_dist(b, player)) == goal_dist(walled(b, mv), player)
            - goal_dist(b, player),
        detour(b, mv, player, goal_dist(b, player)) >= 0,
{
    if let Move::Wall { row, col, orientation } = mv {
        assert(pawn_sq(walled(b, mv), player) == pawn_sq(b, player));
        assert(0 <= pawn_sq(b, player) < 81);
        lemma_wall_shortens_nothing(
            b,
            row as int,
            col as int,
            orientation,
            goal_squares(player),
            pawn_sq(b, player),
        );
        lemma_dist_bound(board_steps(walled(b, mv)), goal_squares(player), pawn_sq(b, player));
    }
}

/// The hottest pawn move of a player is one that the player could make on turn,
/// and no such move is hotter.
pub proof fn lemma_best_heat_is_of_the_player(
    b: Board,
    player: Player,
    cat: CorridorAttention,
    mv: Move,
)
    ensures
        ({
            let list = legal_moves((Board { side_to_move: player, ..b }), PawnGenMode::O1Lookup);
            &&& mv is Pawn && list.contains(mv) ==> place_heat(mv, cat) <= best_heat_of(
                b,
                player,
                cat,
            )
            &&& best_heat_of(b, player, cat) > 0 ==> exists|x: Move| #[trigger]
                list.contains(x) && x is Pawn && place_heat(x, cat) == best_heat_of(b, player, cat)
        }),
{
    let list = legal_moves((Board { side_to_move: player, ..b }), PawnGenMode::O1Lookup);
    lemma_hottest_pawn_move(list, cat, list.len() as int);
    if best_heat_of(b, player, cat) > 0 {
        let i = choose|i: int|
            0 <= i < list.len() && (#[trigger] list[i]) is Pawn && place_heat(list[i], cat)
                == hottest_pawn(list, cat, list.len() as int);
        assert(list.contains(list[i]));
    }
}

} // verus!
