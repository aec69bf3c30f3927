//! Which walls are worth a search, by the ways that they can touch.

use vstd::prelude::*;

use crate::cat::attention::{max_int, min_int, CorridorAttention};
use crate::cat::constants::{CAT_HOT_CM, DIST_PENALTY};
use crate::movegen::topology::lemma_wall_shortens_nothing;
use crate::path::bfs::{goal_dist_option, shortest_distance, BfsScratch};
use crate::path::graph::{board_steps, dist, goal_dist, goal_squares, has_path, pawn_sq, reach};
use crate::path::masks::with_square;
use crate::position::board::{Board, Move, Player, WallOrientation};
use crate::util::bits::{bit128, lemma_bits128};
use crate::util::grid::{has_wall, is_goal, set_wall, slot, unpack_square};

verus! {

/// Score of a move that gains nothing.
pub const TEMPO_PENALTY: i32 = -10;

pub const WALL_CROSS_GAP_CM: i32 = 40;

pub const WALL_CROSS_BLOCK_CM: i32 = 35;

/// Room for the slots that one wall takes away.
pub const WALL_LOCAL_DENIAL_SLOTS: usize = 6;

/// A wall, if any, lies on the grid.
pub open spec fn wall_on_grid(mv: Move) -> bool {
    mv matches Move::Wall { row, col, .. } ==> row < 8 && col < 8
}

// --- ways ---

/// The wall cuts the step between two squares.
pub open spec fn blocks_step(mv: Move, sq1: int, sq2: int) -> bool {
    let r1 = sq1 / 9;
    let c1 = sq1 % 9;
    let r2 = sq2 / 9;
    let c2 = sq2 % 9;
    match mv {
        Move::Pawn { .. } => false,
        Move::Wall { row, col, orientation } => match orientation {
            WallOrientation::Horizontal => c1 == c2 && min_int(r1, r2) == row && max_int(r1, r2)
                == row + 1 && (c1 == col || c1 == col + 1),
            WallOrientation::Vertical => r1 == r2 && min_int(c1, c2) == col && max_int(c1, c2)
                == col + 1 && (r1 == row || r1 == row + 1),
        },
    }
}

/// Whether the wall cuts the step between two squares.
pub fn wall_blocks_path_step(mv: Move, sq1: u8, sq2: u8) -> (r: bool)
    requires
        mv matches Move::Wall { row, col, .. } ==> row < 255 && col < 255,
    ensures
        r == blocks_step(mv, sq1 as int, sq2 as int),
{
    let (r1, c1) = unpack_square(sq1);
    let (r2, c2) = unpack_square(sq2);
    match mv {
        Move::Pawn { .. } => false,
        Move::Wall { row, col, orientation } => match orientation {
            WallOrientation::Horizontal => {
                let (lo, hi): (u8, u8) = if r1 <= r2 {
                    (r1, r2)
                } else {
                    (r2, r1)
                };
                c1 == c2 && lo == row && hi == row + 1 && (c1 == col || c1 == col + 1)
            },
            WallOrientation::Vertical => {
                let (lo, hi): (u8, u8) = if c1 <= c2 {
                    (c1, c2)
                } else {
                    (c2, c1)
                };
                r1 == r2 && lo == col && hi == col + 1 && (r1 == row || r1 == row + 1)
            },
        },
    }
}

/// The wall cuts a step of the path.
pub open spec fn cuts_path(mv: Move, path: Seq<u8>, len: int) -> bool {
    exists|i: int| 0 <= i < len - 1 && blocks_step(mv, #[trigger] path[i] as int, path[i + 1] as int)
}

/// Whether the wall cuts a step of the path.
pub fn wall_intersects_path(mv: Move, path: &[u8], len: usize) -> (r: bool)
    requires
        len <= path@.len(),
        mv matches Move::Wall { row, col, .. } ==> row < 255 && col < 255,
    ensures
        r == cuts_path(mv, path@, len as int),
{
    if len <= 1 {
        return false;
    }
    let mut i: usize = 0;
    while i < len - 1
        invariant
            i <= len - 1,
            1 < len <= path@.len(),
            mv matches Move::Wall { row, col, .. } ==> row < 255 && col < 255,
            forall|k: int|
                0 <= k < i ==> !blocks_step(mv, #[trigger] path@[k] as int, path@[k + 1] as int),
        decreases len - i,
    {
        if wall_blocks_path_step(mv, path[i], path[i + 1]) {
            assert(blocks_step(mv, path@[i as int] as int, path@[i + 1] as int));
            return true;
        }
        i = i + 1;
    }
    false
}

/// The length of a way that ends on the player's far row, a penalty for one
/// that does not.
pub fn path_distance(player: Player, path: &[u8], len: usize) -> (r: u8)
    requires
        len <= path@.len(),
        len <= 256,
    ensures
        r == (if len > 0 && crate::util::grid::goal_row(player, path@[len - 1] as int / 9) {
            len - 1
        } else {
            DIST_PENALTY as int
        }),
{
    if len == 0 {
        return DIST_PENALTY;
    }
    let (r, _) = unpack_square(path[len - 1]);
    if is_goal(player, r) {
        (len - 1) as u8
    } else {
        DIST_PENALTY
    }
}

/// The player's distance, a penalty if there is no way.
pub open spec fn dist_or_penalty(b: Board, player: Player) -> int {
    match goal_dist_option(b, player) {
        Some(d) => d as int,
        None => 99,
    }
}

pub(crate) fn distance(board: &Board, player: Player) -> (r: u8)
    requires
        board.wf(),
    ensures
        r == dist_or_penalty(*board, player),
        has_path(*board, player) ==> r == goal_dist(*board, player),
        r <= 99,
{
    match shortest_distance(board, player) {
        Some(d) => d,
        None => DIST_PENALTY,
    }
}

/// How much `after` is over `before`, nothing if it is not.
pub open spec fn gain(after: int, before: int) -> int {
    max_int(after - before, 0)
}

/// The board with the wall of the move; the board itself for a pawn move.
pub open spec fn walled(b: Board, mv: Move) -> Board {
    match mv {
        Move::Pawn { .. } => b,
        Move::Wall { row, col, orientation } => b.with_wall(
            row as int,
            col as int,
            orientation,
            true,
        ),
    }
}

pub(crate) fn with_move_wall(board: &Board, mv: Move) -> (r: Board)
    requires
        wall_on_grid(mv),
    ensures
        r == walled(*board, mv),
{
    let mut b: Board = *board;
    if let Move::Wall { row, col, orientation } = mv {
        set_wall(&mut b, row, col, orientation, true);
    }
    b
}

/// `d` is the player's distance.
pub open spec fn true_dist(b: Board, player: Player, d: int) -> bool {
    has_path(b, player) && d == goal_dist(b, player)
}

/// How much a wall lengthens the opponent's way and how much our own.
pub fn wall_race_swing(board: &Board, mv: Move, our_dist: u8, opp_dist: u8, bfs: &BfsScratch) -> (r: (
    i32,
    i32,
))
    requires
        board.wf(),
        wall_on_grid(mv),
    ensures
        mv is Pawn ==> r == (0i32, 0i32),
        mv is Wall ==> r.0 == gain(
            dist_or_penalty(walled(*board, mv), board.side_to_move.opposite_spec()),
            opp_dist as int,
        ) && r.1 == gain(
            dist_or_penalty(walled(*board, mv), board.side_to_move),
            our_dist as int,
        ),
        0 <= r.0 <= 99,
        0 <= r.1 <= 99,
        mv is Wall && true_dist(*board, board.side_to_move.opposite_spec(), opp_dist as int)
            && has_path(walled(*board, mv), board.side_to_move.opposite_spec()) ==> r.0
            == goal_dist(walled(*board, mv), board.side_to_move.opposite_spec()) - opp_dist,
        mv is Wall && true_dist(*board, board.side_to_move, our_dist as int) && has_path(
            walled(*board, mv),
            board.side_to_move,
        ) ==> r.1 == goal_dist(walled(*board, mv), board.side_to_move) - our_dist,
{
    match mv {
        Move::Pawn { .. } => (0, 0),
        Move::Wall { row, col, orientation } => {
            let us: Player = board.side();
            let after: Board = with_move_wall(board, mv);
            proof {
                let them = us.opposite_spec();
                if has_path(after, us) {
                    lemma_wall_shortens_nothing(
                        *board,
                        row as int,
                        col as int,
                        orientation,
                        goal_squares(us),
                        pawn_sq(*board, us),
                    );
                }
                if has_path(after, them) {
                    lemma_wall_shortens_nothing(
                        *board,
                        row as int,
                        col as int,
                        orientation,
                        goal_squares(them),
                        pawn_sq(*board, them),
                    );
                }
            }
            let our_after: u8 = distance(&after, us);
            let opp_after: u8 = distance(&after, us.opposite());
            (
                opp_after.saturating_sub(opp_dist) as i32,
                our_after.saturating_sub(our_dist) as i32,
            )
        },
    }
}

/// How much a wall gains in the race: what the opponent loses less what we lose.
pub fn wall_net_race(board: &Board, mv: Move, our_dist: u8, opp_dist: u8, bfs: &BfsScratch) -> (r: i32)
    requires
        board.wf(),
        wall_on_grid(mv),
    ensures
        r == (if mv is Pawn {
            0
        } else {
            gain(
                dist_or_penalty(walled(*board, mv), board.side_to_move.opposite_spec()),
                opp_dist as int,
            ) - gain(
                dist_or_penalty(walled(*board, mv), board.side_to_move),
                our_dist as int,
            )
        }),
{
    let (opp_gain, our_loss) = wall_race_swing(board, mv, our_dist, opp_dist, bfs);
    opp_gain - our_loss
}

/// The least gain that is worth a wall: two in a tied race, else one.
pub fn min_wall_net_race(our_dist: u8, opp_dist: u8) -> (r: i32)
    ensures
        r == (if our_dist == opp_dist {
            2int
        } else {
            1int
        }),
{
    if our_dist == opp_dist {
        2
    } else {
        1
    }
}

/// What a wall adds to the opponent's way.
pub open spec fn opp_gain_spec(b: Board, mv: Move, opp_dist: int) -> int {
    if mv is Pawn {
        0
    } else {
        gain(dist_or_penalty(walled(b, mv), b.side_to_move.opposite_spec()), opp_dist)
    }
}

/// What a wall adds to the opponent's way, 0 for a pawn move.
pub fn opp_path_gain(board: &Board, mv: Move, opp_dist: u8, bfs: &BfsScratch) -> (r: i32)
    requires
        board.wf(),
        wall_on_grid(mv),
    ensures
        r == opp_gain_spec(*board, mv, opp_dist as int),
        0 <= r <= 99,
{
    match mv {
        Move::Pawn { .. } => 0,
        Move::Wall { .. } => {
            let after: Board = with_move_wall(board, mv);
            distance(&after, board.side().opposite()).saturating_sub(opp_dist) as i32
        },
    }
}

/// The distance to the player's far row from a square, a penalty if there is
/// no way.
pub open spec fn dist_from_square(b: Board, player: Player, sq: int) -> int {
    if reach(board_steps(b), goal_squares(player), sq) {
        dist(board_steps(b), goal_squares(player), sq)
    } else {
        99
    }
}

/// What a pawn move takes off our way.
pub open spec fn our_gain_spec(b: Board, mv: Move, our_dist: int) -> int {
    match mv {
        Move::Wall { .. } => 0,
        Move::Pawn { row, col } => gain(
            our_dist,
            dist_from_square(b, b.side_to_move, row * 9 + col),
        ),
    }
}

/// A pawn move, if any, ends on the board.
pub open spec fn pawn_on_board(mv: Move) -> bool {
    mv matches Move::Pawn { row, col } ==> row < 9 && col < 9
}

/// What a pawn move takes off our way, 0 for a wall.
pub fn our_path_gain(board: &Board, mv: Move, our_dist: u8, bfs: &BfsScratch) -> (r: i32)
    requires
        board.wf(),
        pawn_on_board(mv),
    ensures
        r == our_gain_spec(*board, mv, our_dist as int),
        0 <= r <= our_dist,
{
    match mv {
        Move::Wall { .. } => 0,
        Move::Pawn { row, col } => our_dist.saturating_sub(distance_from(board, row, col)) as i32,
    }
}

/// The mover's distance from a square, a penalty if there is no way.
pub(crate) fn distance_from(board: &Board, row: u8, col: u8) -> (r: u8)
    requires
        board.wf(),
        row < 9,
        col < 9,
    ensures
        r == dist_from_square(*board, board.side_to_move, row * 9 + col),
        r <= 99,
{
    let us: Player = board.side();
    let mut after: Board = *board;
    match us {
        Player::One => {
            after.pawns = [(row, col), board.pawns[1]];
        },
        Player::Two => {
            after.pawns = [board.pawns[0], (row, col)];
        },
    }
    assert(pawn_sq(after, us) == row * 9 + col);
    assert(board_steps(after) == board_steps(*board));
    distance(&after, us)
}

/// What a move gains at once, a penalty for nothing.
pub fn move_immediate_gain(
    board: &Board,
    mv: Move,
    our_dist: u8,
    opp_dist: u8,
    bfs: &BfsScratch,
) -> (r: i32)
    requires
        board.wf(),
        wall_on_grid(mv),
        pawn_on_board(mv),
    ensures
        ({
            let g = if mv is Pawn {
                our_gain_spec(*board, mv, our_dist as int)
            } else {
                opp_gain_spec(*board, mv, opp_dist as int)
            };
            r == (if g > 0 {
                g
            } else {
                TEMPO_PENALTY as int
            })
        }),
{
    let g: i32 = match mv {
        Move::Pawn { .. } => our_path_gain(board, mv, our_dist, bfs),
        Move::Wall { .. } => opp_path_gain(board, mv, opp_dist, bfs),
    };
    if g > 0 {
        g
    } else {
        TEMPO_PENALTY
    }
}

/// Whether a move shortens our way or lengthens the opponent's.
pub fn is_tactical_move(
    board: &Board,
    mv: Move,
    our_dist: u8,
    opp_dist: u8,
    bfs: &BfsScratch,
) -> (r: bool)
    requires
        board.wf(),
        wall_on_grid(mv),
        pawn_on_board(mv),
    ensures
        r == (if mv is Pawn {
            our_gain_spec(*board, mv, our_dist as int) > 0
        } else {
            opp_gain_spec(*board, mv, opp_dist as int) > 0
        }),
{
    match mv {
        Move::Pawn { .. } => our_path_gain(board, mv, our_dist, bfs) > 0,
        Move::Wall { .. } => opp_path_gain(board, mv, opp_dist, bfs) > 0,
    }
}

// --- shapes ---

/// A wall here would run through the gap between two walls across it.
pub open spec fn cross_gap(b: Board, r: int, c: int, orientation: WallOrientation) -> bool {
    &&& 0 <= r < 8
    &&& 0 <= c < 8
    &&& !slot(b.walls(orientation), r, c)
    &&& match orientation {
        WallOrientation::Horizontal => slot(b.vertical_walls, r - 1, c) && slot(
            b.vertical_walls,
            r + 1,
            c,
        ),
        WallOrientation::Vertical => slot(b.horizontal_walls, r, c - 1) && slot(
            b.horizontal_walls,
            r,
            c + 1,
        ),
    }
}

/// Whether a wall here would run through the gap between two walls across it.
pub fn is_cross_gap_wall(board: &Board, row: u8, col: u8, orientation: WallOrientation) -> (r: bool)
    ensures
        r == cross_gap(*board, row as int, col as int, orientation),
{
    if row > 7 || col > 7 || has_wall(board, row, col, orientation) {
        return false;
    }
    match orientation {
        WallOrientation::Horizontal => {
            row >= 1 && row <= 6 && has_wall(board, row - 1, col, WallOrientation::Vertical)
                && has_wall(board, row + 1, col, WallOrientation::Vertical)
        },
        WallOrientation::Vertical => {
            col >= 1 && col <= 6 && has_wall(board, row, col - 1, WallOrientation::Horizontal)
                && has_wall(board, row, col + 1, WallOrientation::Horizontal)
        },
    }
}

/// A gap between two walls, away from the border, that a wall next to it would
/// narrow.
pub open spec fn gap_at(b: Board, r: int, c: int, orientation: WallOrientation) -> bool {
    match orientation {
        WallOrientation::Horizontal => 1 <= c <= 6 && slot(b.vertical_walls, r - 1, c) && slot(
            b.vertical_walls,
            r + 1,
            c,
        ),
        WallOrientation::Vertical => 1 <= r <= 6 && slot(b.horizontal_walls, r, c - 1) && slot(
            b.horizontal_walls,
            r,
            c + 1,
        ),
    }
}

/// A wall here stands beside such a gap.
pub open spec fn blocks_gap(b: Board, r: int, c: int, orientation: WallOrientation) -> bool {
    &&& !cross_gap(b, r, c, orientation)
    &&& 0 <= r < 8
    &&& 0 <= c < 8
    &&& match orientation {
        WallOrientation::Horizontal => gap_at(b, r, c - 1, orientation) || gap_at(
            b,
            r,
            c + 1,
            orientation,
        ),
        WallOrientation::Vertical => gap_at(b, r - 1, c, orientation) || gap_at(
            b,
            r + 1,
            c,
            orientation,
        ),
    }
}

fn is_gap(board: &Board, row: u8, col: u8, orientation: WallOrientation) -> (r: bool)
    requires
        row < 9,
        col < 9,
    ensures
        r == gap_at(*board, row as int, col as int, orientation),
{
    match orientation {
        WallOrientation::Horizontal => {
            col >= 1 && col <= 6 && row >= 1 && has_wall(
                board,
                row - 1,
                col,
                WallOrientation::Vertical,
            ) && has_wall(board, row + 1, col, WallOrientation::Vertical)
        },
        WallOrientation::Vertical => {
            row >= 1 && row <= 6 && col >= 1 && has_wall(
                board,
                row,
                col - 1,
                WallOrientation::Horizontal,
            ) && has_wall(board, row, col + 1, WallOrientation::Horizontal)
        },
    }
}

/// Whether a wall here stands beside a gap between two walls.
pub fn blocks_cross_gap_wall(board: &Board, row: u8, col: u8, orientation: WallOrientation) -> (r: bool)
    ensures
        r == blocks_gap(*board, row as int, col as int, orientation),
{
    if is_cross_gap_wall(board, row, col, orientation) || row > 7 || col > 7 {
        return false;
    }
    match orientation {
        WallOrientation::Horizontal => {
            (col > 0 && is_gap(board, row, col - 1, orientation)) || is_gap(
                board,
                row,
                col + 1,
                orientation,
            )
        },
        WallOrientation::Vertical => {
            (row > 0 && is_gap(board, row - 1, col, orientation)) || is_gap(
                board,
                row + 1,
                col,
                orientation,
            )
        },
    }
}

/// The hottest of the four squares around a slot.
pub open spec fn touch_heat(cat: CorridorAttention, r: int, c: int) -> int {
    let a = r * 9 + c;
    max_int(
        max_int(cat.square_heat[a] as int, cat.square_heat[a + 9] as int),
        max_int(cat.square_heat[a + 1] as int, cat.square_heat[a + 10] as int),
    )
}

fn hottest_touched(cat: &CorridorAttention, row: u8, col: u8) -> (r: u16)
    requires
        row < 8,
        col < 8,
    ensures
        r == touch_heat(*cat, row as int, col as int),
{
    let a: u16 = cat.square_heat(row, col);
    let b: u16 = cat.square_heat(row + 1, col);
    let c: u16 = cat.square_heat(row, col + 1);
    let d: u16 = cat.square_heat(row + 1, col + 1);
    let x: u16 = if a >= b {
        a
    } else {
        b
    };
    let y: u16 = if c >= d {
        c
    } else {
        d
    };
    if x >= y {
        x
    } else {
        y
    }
}

/// What the shape of a wall adds to its heat, where it is hot at all.
pub open spec fn shape_bonus(b: Board, mv: Move, cat: CorridorAttention) -> int {
    match mv {
        Move::Pawn { .. } => 0,
        Move::Wall { row, col, orientation } => if max_int(
            cat.wall_heat(row as int, col as int, orientation),
            touch_heat(cat, row as int, col as int),
        ) < CAT_HOT_CM {
            0
        } else if cross_gap(b, row as int, col as int, orientation) {
            40
        } else if blocks_gap(b, row as int, col as int, orientation) {
            35
        } else {
            0
        },
    }
}

/// What the shape of a wall adds to its heat.
pub fn wall_shape_attention_bonus(board: &Board, mv: Move, cat: &CorridorAttention) -> (r: i32)
    requires
        wall_on_grid(mv),
    ensures
        r == shape_bonus(*board, mv, *cat),
        0 <= r <= 40,
{
    match mv {
        Move::Pawn { .. } => 0,
        Move::Wall { row, col, orientation } => {
            if cat.wall_edge_heat(row, col, orientation) < CAT_HOT_CM && hottest_touched(
                cat,
                row,
                col,
            ) < CAT_HOT_CM {
                0
            } else if is_cross_gap_wall(board, row, col, orientation) {
                WALL_CROSS_GAP_CM
            } else if blocks_cross_gap_wall(board, row, col, orientation) {
                WALL_CROSS_BLOCK_CM
            } else {
                0
            }
        },
    }
}

// --- regions ---

/// Some neighbour on the board is not in the set.
pub open spec fn borders_outside(m: u128, sq: int) -> bool {
    ||| sq >= 9 && !bit128(m, sq - 9)
    ||| sq < 72 && !bit128(m, sq + 9)
    ||| sq % 9 > 0 && !bit128(m, sq - 1)
    ||| sq % 9 < 8 && !bit128(m, sq + 1)
}

/// A live square next to sealed-off territory.
pub open spec fn is_mouth(reachable: u128, sq: int) -> bool {
    0 <= sq < 81 && bit128(reachable, sq) && borders_outside(reachable, sq)
}

/// A mouth or a neighbour of one.
pub open spec fn in_gap_zone(reachable: u128, sq: int) -> bool {
    0 <= sq < 81 && (is_mouth(reachable, sq) || (sq >= 9 && is_mouth(reachable, sq - 9)) || (sq < 72
        && is_mouth(reachable, sq + 9)) || (sq % 9 > 0 && is_mouth(reachable, sq - 1)) || (sq % 9 < 8
        && is_mouth(reachable, sq + 1)))
}

#[inline]
fn holds(m: u128, sq: u8) -> (r: bool)
    requires
        sq < 81,
    ensures
        r == bit128(m, sq as int),
{
    proof {
        lemma_bits128(m, 0, sq as int);
    }
    m & (1u128 << (sq as u128)) != 0
}

/// The set holds the first `n` squares of which `p` is true, and nothing else.
spec fn collected(m: u128, p: spec_fn(int) -> bool, n: int) -> bool {
    forall|i: int| 0 <= i < 128 ==> #[trigger] bit128(m, i) == (i < n && p(i))
}

proof fn lemma_collect_none(p: spec_fn(int) -> bool)
    ensures
        collected(0, p, 0),
{
    assert forall|i: int| 0 <= i < 128 implies !(#[trigger] bit128(0, i)) by {
        lemma_bits128(0, 0, i);
    }
}

fn collect(m: u128, sq: u8, on: bool, Ghost(p): Ghost<spec_fn(int) -> bool>) -> (r: u128)
    requires
        sq < 81,
        on == p(sq as int),
        collected(m, p, sq as int),
    ensures
        collected(r, p, sq + 1),
{
    with_square(m, sq, on)
}

fn mouth_at(reachable: u128, sq: u8) -> (r: bool)
    requires
        sq < 81,
    ensures
        r == is_mouth(reachable, sq as int),
{
    holds(reachable, sq) && ((sq >= 9 && !holds(reachable, sq - 9)) || (sq < 72 && !holds(
        reachable,
        sq + 9,
    )) || (sq % 9 > 0 && !holds(reachable, sq - 1)) || (sq % 9 < 8 && !holds(reachable, sq + 1)))
}

/// Live squares next to sealed-off territory.
pub fn corridor_mouth_mask(reachable: u128) -> (m: u128)
    ensures
        forall|i: int| 0 <= i < 128 ==> #[trigger] bit128(m, i) == is_mouth(reachable, i),
{
    let ghost p = |i: int| is_mouth(reachable, i);
    let mut mouths: u128 = 0;
    proof {
        lemma_collect_none(p);
    }
    let mut sq: u8 = 0;
    while sq < 81
        invariant
            sq <= 81,
            p == (|i: int| is_mouth(reachable, i)),
            collected(mouths, p, sq as int),
        decreases 81 - sq,
    {
        let open: bool = mouth_at(reachable, sq);
        mouths = collect(mouths, sq, open, Ghost(p));
        sq = sq + 1;
    }
    mouths
}

fn zone_at(mouths: u128, sq: u8, Ghost(reachable): Ghost<u128>) -> (r: bool)
    requires
        sq < 81,
        forall|i: int| 0 <= i < 128 ==> #[trigger] bit128(mouths, i) == is_mouth(reachable, i),
    ensures
        r == in_gap_zone(reachable, sq as int),
{
    holds(mouths, sq) || (sq >= 9 && holds(mouths, sq - 9)) || (sq < 72 && holds(mouths, sq + 9))
        || (sq % 9 > 0 && holds(mouths, sq - 1)) || (sq % 9 < 8 && holds(mouths, sq + 1))
}

/// Mouths and all that lies next to them.
pub fn gap_play_zone_mask(reachable: u128) -> (m: u128)
    ensures
        forall|i: int| 0 <= i < 128 ==> #[trigger] bit128(m, i) == in_gap_zone(reachable, i),
{
    let ghost p = |i: int| in_gap_zone(reachable, i);
    let mouths: u128 = corridor_mouth_mask(reachable);
    let mut zone: u128 = 0;
    proof {
        lemma_collect_none(p);
    }
    let mut sq: u8 = 0;
    while sq < 81
        invariant
            sq <= 81,
            p == (|i: int| in_gap_zone(reachable, i)),
            forall|i: int| 0 <= i < 128 ==> #[trigger] bit128(mouths, i) == is_mouth(reachable, i),
            collected(zone, p, sq as int),
        decreases 81 - sq,
    {
        let near: bool = zone_at(mouths, sq, Ghost(reachable));
        zone = collect(zone, sq, near, Ghost(p));
        sq = sq + 1;
    }
    zone
}

/// One of the four squares around a slot.
pub open spec fn touched(r: int, c: int, sq: int) -> bool {
    let a = r * 9 + c;
    sq == a || sq == a + 1 || sq == a + 9 || sq == a + 10
}

/// Some square around the slot is in the set.
pub open spec fn touches_set(m: u128, r: int, c: int) -> bool {
    let a = r * 9 + c;
    bit128(m, a) || bit128(m, a + 1) || bit128(m, a + 9) || bit128(m, a + 10)
}

fn touches(m: u128, row: u8, col: u8) -> (r: bool)
    requires
        row < 8,
        col < 8,
    ensures
        r == touches_set(m, row as int, col as int),
{
    let a: u8 = row * 9 + col;
    holds(m, a) || holds(m, a + 1) || holds(m, a + 9) || holds(m, a + 10)
}

/// The wall touches nothing that a pawn is connected to.
pub open spec fn dead_zone(mv: Move, reachable: u128) -> bool {
    mv matches Move::Wall { row, col, .. } && !touches_set(reachable, row as int, col as int)
}

/// Whether a wall touches nothing that a pawn is connected to.
pub fn wall_in_dead_zone(mv: Move, reachable: u128) -> (r: bool)
    requires
        wall_on_grid(mv),
    ensures
        r == dead_zone(mv, reachable),
{
    match mv {
        Move::Pawn { .. } => false,
        Move::Wall { row, col, .. } => !touches(reachable, row, col),
    }
}

/// The wall touches sealed-off territory away from the gaps.
pub open spec fn probes_sealed(mv: Move, reachable: u128, gap_zone: u128) -> bool {
    mv matches Move::Wall { row, col, .. } && {
        let a = row * 9 + col;
        ||| !bit128(reachable, a) && !bit128(gap_zone, a)
        ||| !bit128(reachable, a + 1) && !bit128(gap_zone, a + 1)
        ||| !bit128(reachable, a + 9) && !bit128(gap_zone, a + 9)
        ||| !bit128(reachable, a + 10) && !bit128(gap_zone, a + 10)
    }
}

fn wall_probes_sealed_interior(mv: Move, reachable: u128, gap_zone: u128) -> (r: bool)
    requires
        wall_on_grid(mv),
    ensures
        r == probes_sealed(mv, reachable, gap_zone),
{
    match mv {
        Move::Pawn { .. } => false,
        Move::Wall { row, col, .. } => {
            let a: u8 = row * 9 + col;
            (!holds(reachable, a) && !holds(gap_zone, a)) || (!holds(reachable, a + 1) && !holds(
                gap_zone,
                a + 1,
            )) || (!holds(reachable, a + 9) && !holds(gap_zone, a + 9)) || (!holds(
                reachable,
                a + 10,
            ) && !holds(gap_zone, a + 10))
        },
    }
}

/// The wall touches a gap.
pub open spec fn touches_zone(mv: Move, gap_zone: u128) -> bool {
    mv matches Move::Wall { row, col, .. } && touches_set(gap_zone, row as int, col as int)
}

fn wall_touches_gap_zone(mv: Move, gap_zone: u128) -> (r: bool)
    requires
        wall_on_grid(mv),
    ensures
        r == touches_zone(mv, gap_zone),
{
    match mv {
        Move::Pawn { .. } => false,
        Move::Wall { row, col, .. } => touches(gap_zone, row, col),
    }
}

/// A wall by its shape or place at a gap.
pub open spec fn at_gap(b: Board, mv: Move, gap_zone: u128) -> bool {
    ||| mv matches Move::Wall { row, col, orientation } && (cross_gap(
        b,
        row as int,
        col as int,
        orientation,
    ) || blocks_gap(b, row as int, col as int, orientation))
    ||| gap_zone != 0 && touches_zone(mv, gap_zone)
}

/// A wall is worth a search: not in a dead zone, and at a gap; or else not
/// reaching into sealed-off territory, and across the opponent's way or a hot
/// corridor.
pub open spec fn worth_searching(
    b: Board,
    mv: Move,
    cat: CorridorAttention,
    reachable: u128,
    gap_zone: u128,
    opp_path: Seq<u8>,
    opp_path_len: int,
) -> bool {
    &&& mv is Wall
    &&& !dead_zone(mv, reachable)
    &&& {
        ||| at_gap(b, mv, gap_zone)
        ||| {
            &&& !(gap_zone != 0 && probes_sealed(mv, reachable, gap_zone))
            &&& {
                ||| cuts_path(mv, opp_path, opp_path_len)
                ||| mv matches Move::Wall { row, col, orientation } && cat.wall_heat(
                    row as int,
                    col as int,
                    orientation,
                ) >= CAT_HOT_CM
            }
        }
    }
}

/// Whether a wall can matter for either player's ways.
pub fn wall_should_search(
    mv: Move,
    cat: &CorridorAttention,
    reachable: u128,
    gap_zone: u128,
    board: &Board,
    _our_dist: u8,
    _opp_dist: u8,
    opp_path: &[u8],
    opp_path_len: usize,
    _bfs: &BfsScratch,
) -> (r: bool)
    requires
        wall_on_grid(mv),
        opp_path_len <= opp_path@.len(),
    ensures
        r == worth_searching(
            *board,
            mv,
            *cat,
            reachable,
            gap_zone,
            opp_path@,
            opp_path_len as int,
        ),
{
    if wall_in_dead_zone(mv, reachable) {
        return false;
    }
    match mv {
        Move::Pawn { .. } => false,
        Move::Wall { row, col, orientation } => {
            if is_cross_gap_wall(board, row, col, orientation) || blocks_cross_gap_wall(
                board,
                row,
                col,
                orientation,
            ) {
                return true;
            }
            if gap_zone != 0 && wall_touches_gap_zone(mv, gap_zone) {
                return true;
            }
            if gap_zone != 0 && wall_probes_sealed_interior(mv, reachable, gap_zone) {
                return false;
            }
            if wall_intersects_path(mv, opp_path, opp_path_len) {
                return true;
            }
            cat.wall_edge_heat(row, col, orientation) >= CAT_HOT_CM
        },
    }
}

/// A wall that is never searched.
pub open spec fn skipped(b: Board, mv: Move, reachable: u128, gap_zone: u128) -> bool {
    ||| dead_zone(mv, reachable)
    ||| {
        &&& mv is Wall
        &&& !at_gap(b, mv, gap_zone)
        &&& gap_zone != 0
        &&& probes_sealed(mv, reachable, gap_zone)
    }
}

/// Whether a wall is never searched: in a dead zone, or in sealed-off
/// territory away from the gaps.
pub fn wall_completely_skipped(mv: Move, board: &Board, reachable: u128, gap_zone: u128) -> (r: bool)
    requires
        wall_on_grid(mv),
    ensures
        r == skipped(*board, mv, reachable, gap_zone),
{
    if wall_in_dead_zone(mv, reachable) {
        return true;
    }
    match mv {
        Move::Pawn { .. } => false,
        Move::Wall { row, col, orientation } => {
            if is_cross_gap_wall(board, row, col, orientation) || blocks_cross_gap_wall(
                board,
                row,
                col,
                orientation,
            ) {
                return false;
            }
            if gap_zone != 0 && wall_touches_gap_zone(mv, gap_zone) {
                return false;
            }
            gap_zone != 0 && wall_probes_sealed_interior(mv, reachable, gap_zone)
        },
    }
}

/// A wall that is never searched is not worth a search.
pub proof fn lemma_skipped_not_searched(
    b: Board,
    mv: Move,
    cat: CorridorAttention,
    reachable: u128,
    gap_zone: u128,
    opp_path: Seq<u8>,
    opp_path_len: int,
)
    requires
        skipped(b, mv, reachable, gap_zone),
    ensures
        !worth_searching(b, mv, cat, reachable, gap_zone, opp_path, opp_path_len),
{
}

} // verus!
