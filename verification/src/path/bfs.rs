//! Distances and reachability of a board's players.

use vstd::prelude::*;

use crate::movegen::o1::runtime::{build_from_discovery, PawnTables};
use crate::path::distance::{fill_dist_to_goal_row, lemma_field_steps};
use crate::path::graph::{board_steps, both_have_paths, goal_dist, goal_squares, has_path, pawn_sq};
use crate::path::masks::DirMasks;
use crate::path::parallel::{flood_to_goal_grids, lemma_board_reach};
use crate::position::board::{Board, Player};

verus! {

/// What is kept between calls: the pawn tables, once they were asked for.
pub struct BfsScratch {
    pub pawn_tables: Option<PawnTables>,
}

impl BfsScratch {
    /// Tables that are there are right.
    pub open spec fn wf(self) -> bool {
        self.pawn_tables matches Some(t) ==> t.right()
    }

    /// Scratch space without tables.
    pub fn new() -> (r: Self)
        ensures
            r.wf(),
            r.pawn_tables is None,
    {
        BfsScratch { pawn_tables: None }
    }

    /// Builds the pawn tables, unless they are there.
    pub fn prewarm(&mut self)
        requires
            old(self).wf(),
        ensures
            final(self).wf(),
            final(self).pawn_tables is Some,
            old(self).pawn_tables is Some ==> *final(self) == *old(self),
    {
        if self.pawn_tables.is_none() {
            self.pawn_tables = Some(build_from_discovery());
        }
    }

    /// The open steps of a board.
    pub fn dir_masks(&self, board: &Board) -> (m: DirMasks)
        ensures
            m.allows(board_steps(*board)),
    {
        DirMasks::from_board(board)
    }

    /// See [`shortest_distance`].
    pub fn shortest_distance(&self, board: &Board, player: Player) -> (r: Option<u8>)
        requires
            board.wf(),
        ensures
            r == goal_dist_option(*board, player),
            r matches Some(d) ==> d <= 80 && d == goal_dist(*board, player),
    {
        shortest_distance(board, player)
    }

    /// See [`both_players_reach_goals`].
    pub fn both_players_reach_goals(&self, board: &Board) -> (r: bool)
        requires
            board.wf(),
        ensures
            r == both_have_paths(*board),
    {
        both_players_reach_goals(board)
    }
}

/// What `shortest_distance` returns.
pub open spec fn goal_dist_option(b: Board, player: Player) -> Option<u8> {
    if has_path(b, player) {
        Some(goal_dist(b, player) as u8)
    } else {
        None
    }
}

/// Number of steps of a shortest way of the player's pawn to the far row, if
/// there is one.
pub fn shortest_distance(board: &Board, player: Player) -> (r: Option<u8>)
    requires
        board.wf(),
    ensures
        r == goal_dist_option(*board, player),
        r matches Some(d) ==> d <= 80 && d == goal_dist(*board, player),
{
    let masks: DirMasks = DirMasks::from_board(board);
    let mut field: [u8; 81] = [255u8; 81];
    fill_dist_to_goal_row(player, masks, &mut field);
    let at: (u8, u8) = board.pawn(player);
    let sq: u8 = at.0 * 9 + at.1;
    proof {
        lemma_field_steps(field@, masks, board_steps(*board), goal_squares(player));
        if has_path(*board, player) {
            crate::path::graph::lemma_dist_reach(
                board_steps(*board),
                goal_squares(player),
                sq as int,
            );
        }
    }
    let d: u8 = field[sq as usize];
    if d == 255 {
        None
    } else {
        Some(d)
    }
}

/// Whether the player's pawn is connected to the far row.
pub fn can_reach_goal(board: &Board, player: Player) -> (r: bool)
    requires
        board.wf(),
    ensures
        r == has_path(*board, player),
{
    let masks: DirMasks = DirMasks::from_board(board);
    let at: (u8, u8) = board.pawn(player);
    proof {
        lemma_board_reach(masks, *board, player, pawn_sq(*board, player));
    }
    flood_to_goal_grids(at.0 * 9 + at.1, player, &masks)
}

/// Whether both pawns are connected to their far rows.
pub fn both_players_reach_goals(board: &Board) -> (r: bool)
    requires
        board.wf(),
    ensures
        r == both_have_paths(*board),
{
    can_reach_goal(board, Player::One) && can_reach_goal(board, Player::Two)
}

} // verus!
