//! A board kept in step with a game, for fast move generation.

use vstd::prelude::*;

use crate::ace::certify::legal_in;
use crate::ace::convert::{
    ace_move_to_board, board_move_to_ace, flip_word, is_ace_move, lemma_mirror_moves,
    lemma_move_round_trip, mirrors, on_grid, to_ace, to_board,
};
use crate::ace::game::{is_pawn_move, wall_slot, AceGame, AceState};
use crate::ace::mirror::{lemma_flip_back, lemma_mirror_legal};
use crate::movegen::laws::lemma_legal_fits;
use crate::movegen::legal::{
    generate_legal_moves_slice, legal_moves, lemma_legal_moves_bounded, PawnGenMode,
};
use crate::path::bfs::BfsScratch;
use crate::position::board::{lemma_unmake_restores, taken_back, Board, Move, Player, Undo};
use crate::position::zobrist::hash_board;
use crate::util::grid::slot;

verus! {

pub struct TiBridge {
    pub board: Board,
    pub bfs: BfsScratch,
    pub undo_stack: Vec<Undo>,
}

/// Walls in hand fit the board.
pub open spec fn hands_fit(s: AceState) -> bool {
    0 <= s.wl0 <= 255 && 0 <= s.wl1 <= 255
}

/// The board that shows the position of a game.
pub fn board_from_game(g: &AceGame) -> (b: Board)
    requires
        g.wf(),
        hands_fit(g@),
        g@.hist.len() <= i32::MAX,
    ensures
        b.wf(),
        mirrors(b, g@),
        b.keys_current(),
        b.move_number == g@.hist.len() / 2 + 1,
{
    let h: u64 = flip_word(g.h_word);
    let v: u64 = flip_word(g.v_word);
    proof {
        lemma_flip_back(g@.h, h);
        lemma_flip_back(g@.v, v);
    }
    let mut b: Board = Board {
        pawns: [
            ((8 - g.pawn[0] / 9) as u8, (g.pawn[0] % 9) as u8),
            ((8 - g.pawn[1] / 9) as u8, (g.pawn[1] % 9) as u8),
        ],
        walls_remaining: [g.wl[0] as u8, g.wl[1] as u8],
        horizontal_walls: h,
        vertical_walls: v,
        side_to_move: if g.turn == 0 {
            Player::One
        } else {
            Player::Two
        },
        move_number: (g.hist.len() / 2 + 1) as u32,
        hash: 0,
        verify: 0,
    };
    b.hash = hash_board(&b);
    b.verify = b.compute_verify();
    b
}

/// Both bridges hold the same board, undo stack and tables.
pub open spec fn same_bridge(a: TiBridge, b: TiBridge) -> bool {
    a.board == b.board && a.undo_stack@ == b.undo_stack@ && a.bfs == b.bfs
}

/// `after` is `before` with the move played on its board.
pub open spec fn pushed(before: TiBridge, m: i16, after: TiBridge) -> bool {
    &&& before.board.leads_to(to_board(m), after.board)
    &&& after.bfs == before.bfs
    &&& after.undo_stack@.len() == before.undo_stack@.len() + 1
    &&& after.undo_stack@.drop_last() == before.undo_stack@
    &&& {
        let u = after.undo_stack@.last();
        &&& u.mv == to_board(m)
        &&& u.pawn_from == before.board.pawns[before.board.side_to_move.index_spec()]
        &&& u.hash == before.board.hash
        &&& u.verify == before.board.verify
    }
}

impl TiBridge {
    /// The board shows the position; its move counter is below a limit.
    pub open spec fn in_step(self, s: AceState, ply: int) -> bool {
        &&& self.board.wf()
        &&& mirrors(self.board, s)
        &&& self.bfs.wf()
        &&& self.board.move_number < 0x8000_0000 + ply
    }

    /// A bridge for the position of a game.
    pub fn from_game(g: &AceGame) -> (r: Self)
        requires
            g.wf(),
            hands_fit(g@),
            g@.hist.len() <= i32::MAX,
        ensures
            r.in_step(g@, 0),
            r.board.keys_current(),
            r.undo_stack@.len() == 0,
            r.bfs.pawn_tables is None,
    {
        TiBridge { board: board_from_game(g), bfs: BfsScratch::new(), undo_stack: Vec::new() }
    }

    /// Plays a move on the board.
    pub fn push(&mut self, m: i16)
        requires
            is_ace_move(m),
            old(self).board.playable(to_board(m)),
        ensures
            pushed(*old(self), m, *final(self)),
    {
        let mv: Move = ace_move_to_board(m);
        let undo: Undo = self.board.make_move(mv);
        self.undo_stack.push(undo);
        assert(self.undo_stack@.drop_last() =~= old(self).undo_stack@);
    }

    /// Takes the last move back.
    pub fn pop(&mut self)
        requires
            old(self).undo_stack@.len() > 0,
            old(self).board.side_to_move == Player::One ==> old(self).board.move_number > 0,
            old(self).undo_stack@.last().mv matches Move::Wall { row, col, .. } ==> row < 8 && col
                < 8 && old(self).board.walls_remaining[1
                - old(self).board.side_to_move.index_spec()] < 255,
        ensures
            taken_back(old(self).board, old(self).undo_stack@.last(), final(self).board),
            final(self).undo_stack@ == old(self).undo_stack@.drop_last(),
            final(self).bfs == old(self).bfs,
    {
        match self.undo_stack.pop() {
            Some(undo) => {
                self.board.unmake_move(undo);
            },
            None => {},
        }
    }

    /// Turns the board over to the other side.
    pub fn pass(&mut self)
        ensures
            final(self).board == (Board {
                side_to_move: old(self).board.side_to_move.opposite_spec(),
                ..old(self).board
            }),
            final(self).undo_stack == old(self).undo_stack,
            final(self).bfs == old(self).bfs,
    {
        self.board.side_to_move = self.board.side_to_move.opposite();
    }

    /// Writes the legal moves as move numbers; their number.
    pub fn gen_legal_ace(&self, out: &mut [i16; 160]) -> (n: usize)
        requires
            self.board.wf(),
            self.bfs.wf(),
        ensures
            n == legal_moves(self.board, PawnGenMode::O1Lookup).len(),
            n <= 140,
            forall|i: int|
                0 <= i < n ==> #[trigger] final(out)[i] == to_ace(
                    legal_moves(self.board, PawnGenMode::O1Lookup)[i],
                ),
            forall|i: int| 0 <= i < n ==> is_ace_move(#[trigger] final(out)[i]),
            forall|i: int| n <= i < 160 ==> #[trigger] final(out)[i] == old(out)[i],
    {
        let mut list: [Move; 140] = [Move::Pawn { row: 0, col: 0 }; 140];
        proof {
            lemma_legal_moves_bounded(self.board, PawnGenMode::O1Lookup);
        }
        let n: usize = generate_legal_moves_slice(&self.board, &mut list, &self.bfs);
        let ghost all = legal_moves(self.board, PawnGenMode::O1Lookup);
        assert forall|i: int| 0 <= i < n implies #[trigger] list[i] == all[i] by {}
        let mut i: usize = 0;
        while i < n
            invariant
                i <= n <= 140,
                n == all.len(),
                self.board.wf(),
                all == legal_moves(self.board, PawnGenMode::O1Lookup),
                forall|k: int| 0 <= k < n ==> #[trigger] list[k] == all[k],
                forall|k: int| 0 <= k < i ==> #[trigger] out[k] == to_ace(all[k]),
                forall|k: int| 0 <= k < i ==> is_ace_move(#[trigger] out[k]),
                forall|k: int| i <= k < 160 ==> #[trigger] out[k] == old(out)[k],
            decreases n - i,
        {
            let mv: Move = list[i];
            proof {
                assert(all[i as int] == mv);
                assert(all.contains(mv));
                lemma_legal_on_grid(self.board, mv);
            }
            out[i] = board_move_to_ace(mv);
            i = i + 1;
        }
        n
    }
}

/// A legal move lies on the grid.
pub proof fn lemma_legal_on_grid(b: Board, mv: Move)
    requires
        b.wf(),
        legal_moves(b, PawnGenMode::O1Lookup).contains(mv),
    ensures
        on_grid(mv),
{
    lemma_legal_fits(b, PawnGenMode::O1Lookup, mv);
}

/// A bridge in step generates exactly the legal moves of the game, unless a
/// pawn has arrived.
pub proof fn lemma_bridge_exact(bridge: TiBridge, s: AceState, ply: int, m: i16)
    requires
        bridge.in_step(s, ply),
        s.wf(),
        bridge.board.winner() is None,
    ensures
        legal_in(s, m) == exists|i: int|
            0 <= i < legal_moves(bridge.board, PawnGenMode::O1Lookup).len() && to_ace(
                #[trigger] legal_moves(bridge.board, PawnGenMode::O1Lookup)[i],
            ) == m,
{
    let b = bridge.board;
    let all = legal_moves(b, PawnGenMode::O1Lookup);
    if legal_in(s, m) {
        let mv = to_board(m);
        lemma_move_round_trip(mv, m);
        lemma_mirror_legal(b, s, PawnGenMode::O1Lookup, mv);
        let i = choose|i: int| 0 <= i < all.len() && all[i] == mv;
        assert(to_ace(all[i]) == m);
    }
    if exists|i: int| 0 <= i < all.len() && to_ace(#[trigger] all[i]) == m {
        let i = choose|i: int| 0 <= i < all.len() && to_ace(#[trigger] all[i]) == m;
        let mv = all[i];
        assert(all.contains(mv));
        lemma_legal_on_grid(b, mv);
        lemma_mirror_legal(b, s, PawnGenMode::O1Lookup, mv);
    }
}

/// What playing a move of the game does to a bridge in step.
pub proof fn lemma_push_in_step(before: TiBridge, s: AceState, ply: int, m: i16, after: TiBridge)
    requires
        before.in_step(s, ply),
        s.wf(),
        s.playable(m),
        hands_fit(s),
        ply < 1000,
        pushed(before, m, after),
    ensures
        after.in_step(s.after(m), ply + 1),
{
    let mv = to_board(m);
    lemma_move_round_trip(mv, m);
    lemma_playable_on_board(before, s, ply, m);
    lemma_mirror_moves(before.board, mv, after.board, s);
    assert(after.board.pawns[0] == after.board.pawns@[0] && after.board.pawns[1]
        == after.board.pawns@[1]);
    assert(before.board.pawns[0] == before.board.pawns@[0] && before.board.pawns[1]
        == before.board.pawns@[1]);
}

/// A move that the game can play, the board can play.
pub proof fn lemma_playable_on_board(before: TiBridge, s: AceState, ply: int, m: i16)
    requires
        before.in_step(s, ply),
        s.wf(),
        s.playable(m),
        ply < 1000,
    ensures
        is_ace_move(m),
        on_grid(to_board(m)),
        before.board.playable(to_board(m)),
        to_board(m) matches Move::Wall { row, col, orientation } ==> !slot(
            before.board.walls(orientation),
            row as int,
            col as int,
        ),
{
    let mv = to_board(m);
    lemma_move_round_trip(mv, m);
    assert(before.board.walls_remaining[0] == before.board.walls_remaining@[0]);
    if !is_pawn_move(m) {
        let w = wall_slot(m);
        let r = w / 8;
        let c = w % 8;
        crate::ace::convert::lemma_flip_pair(before.board.horizontal_walls, s.h, 7 - r, c);
        crate::ace::convert::lemma_flip_pair(before.board.vertical_walls, s.v, 7 - r, c);
    }
}

/// Taking the move back gives the bridge back.
pub proof fn lemma_pop_restores(
    before: TiBridge,
    s: AceState,
    ply: int,
    m: i16,
    after: TiBridge,
    back: TiBridge,
)
    requires
        before.in_step(s, ply),
        s.wf(),
        s.playable(m),
        ply < 1000,
        pushed(before, m, after),
        taken_back(after.board, after.undo_stack@.last(), back.board),
        back.undo_stack@ == after.undo_stack@.drop_last(),
        back.bfs == after.bfs,
    ensures
        same_bridge(back, before),
{
    lemma_playable_on_board(before, s, ply, m);
    lemma_unmake_restores(
        before.board,
        to_board(m),
        after.board,
        after.undo_stack@.last(),
        back.board,
    );
}

/// After a push the bridge can pop.
pub proof fn lemma_can_pop(before: TiBridge, s: AceState, ply: int, m: i16, after: TiBridge)
    requires
        before.in_step(s, ply),
        s.wf(),
        s.playable(m),
        hands_fit(s),
        ply < 1000,
        pushed(before, m, after),
    ensures
        after.undo_stack@.len() > 0,
        after.board.side_to_move == Player::One ==> after.board.move_number > 0,
        after.undo_stack@.last().mv matches Move::Wall { row, col, .. } ==> row < 8 && col < 8
            && after.board.walls_remaining[1 - after.board.side_to_move.index_spec()] < 255,
{
    lemma_playable_on_board(before, s, ply, m);
    let side = before.board.side_to_move.index_spec();
    assert(after.board.walls_remaining[side] == after.board.walls_remaining@[side]);
    assert(before.board.walls_remaining[side] == before.board.walls_remaining@[side]);
}

} // verus!
