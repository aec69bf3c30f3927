//! Wall trials: would both players still reach their far rows?

use vstd::prelude::*;

use crate::path::flood::{flood_meets, goal_square_mask, lemma_masks_reach, lemma_only, squares};
use crate::path::graph::{board_steps, goal_squares, reach};
use crate::path::masks::DirMasks;
use crate::position::board::{Board, Player, WallOrientation};
use crate::util::bits::{bit128, lemma_one128};

verus! {

/// The flood word of a pawn.
pub fn pawn_bit(row: u8, col: u8) -> (r: u128)
    requires
        row < 9,
        col < 9,
    ensures
        r == 1u128 << ((row * 9 + col) as u128),
{
    1u128 << ((row * 9 + col) as u128)
}

/// Whether the pawn on square `at` is connected to the player's far row under
/// the steps of `masks`, which are those of `board`.
pub fn flood_to_goal_grids(at: u8, player: Player, masks: &DirMasks) -> (r: bool)
    requires
        masks.wf(),
        at < 81,
    ensures
        r == reach(masks.steps(), goal_squares(player), at as int),
{
    let goal: u128 = goal_square_mask(player);
    let pawn: u128 = 1u128 << (at as u128);
    proof {
        lemma_only(at as int);
    }
    let r: bool = flood_meets(masks, goal, pawn);
    proof {
        assert forall|i: int| 0 <= i < 81 implies #[trigger] bit128(pawn, i) == (i == at) by {
            lemma_one128(0, at as int, i);
        }
        assert forall|i: int| #[trigger] goal_squares(player)(i) == squares(goal)(i) by {
            assert(squares(goal)(i) == goal_squares(player)(i));
        }
        lemma_masks_reach(*masks, masks.steps(), goal_squares(player), goal, at as int);
        if reach(masks.steps(), goal_squares(player), at as int) {
            assert(bit128(pawn, at as int) && reach(masks.steps(), squares(goal), at as int));
        }
    }
    r
}

/// The grid of open steps of one position, for trying walls on it.
#[derive(Clone, Copy)]
pub struct WallGrids {
    pub open: DirMasks,
}

impl WallGrids {
    /// The grid of a board.
    pub fn from_board(board: &Board) -> (g: Self)
        ensures
            g.open.allows(board_steps(*board)),
    {
        WallGrids { open: DirMasks::from_board(board) }
    }

    /// The grid with one more wall.
    pub fn placed(&self, board: &Board, row: u8, col: u8, orientation: WallOrientation) -> (g: Self)
        requires
            self.open.allows(board_steps(*board)),
            row < 8,
            col < 8,
        ensures
            g.open.allows(board_steps(board.with_wall(row as int, col as int, orientation, true))),
    {
        WallGrids { open: self.open.with_wall(board, row, col, orientation) }
    }
}

/// Whether both pawns are connected to their far rows under the steps of `grids`.
pub fn both_players_reach_goals_grids(p1: u8, p2: u8, grids: &WallGrids) -> (r: bool)
    requires
        grids.open.wf(),
        p1 < 81,
        p2 < 81,
    ensures
        r == (reach(grids.open.steps(), goal_squares(Player::One), p1 as int) && reach(
            grids.open.steps(),
            goal_squares(Player::Two),
            p2 as int,
        )),
{
    flood_to_goal_grids(p1, Player::One, &grids.open) && flood_to_goal_grids(
        p2,
        Player::Two,
        &grids.open,
    )
}

/// What masks reach is what the board reaches.
pub proof fn lemma_board_reach(masks: DirMasks, b: Board, player: Player, at: int)
    requires
        masks.allows(board_steps(b)),
    ensures
        reach(masks.steps(), goal_squares(player), at) == reach(
            board_steps(b),
            goal_squares(player),
            at,
        ),
{
    assert forall|sq: int, d: int| #[trigger] board_steps(b)(sq, d) == masks.steps()(sq, d) by {
        assert(masks.steps()(sq, d) == board_steps(b)(sq, d));
    }
    crate::path::graph::lemma_reach_same(
        board_steps(b),
        masks.steps(),
        goal_squares(player),
        goal_squares(player),
        at,
    );
}

} // verus!
