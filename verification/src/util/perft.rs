//! Counting the positions that a number of plies leads to.

use vstd::prelude::*;

use crate::movegen::laws::lemma_legal_playable;
use crate::movegen::legal::{
    generate_legal_moves_slice, legal_moves, lemma_legal_moves_bounded, PawnGenMode,
};
use crate::path::bfs::BfsScratch;
use crate::position::board::{lemma_unmake_restores, Board, Move, Undo};

verus! {

/// Positions after three plies from the start.
pub const PERFT3_STARTPOS: u64 = 2_062_264;

/// The position that a move leads to.
pub open spec fn played(b: Board, mv: Move) -> Board {
    choose|a: Board| b.leads_to(mv, a)
}

/// The number of lines of `depth` legal moves.
pub open spec fn perft_spec(b: Board, depth: nat) -> nat
    decreases depth, 0nat,
{
    if depth == 0 {
        1
    } else {
        let moves = legal_moves(b, PawnGenMode::O1Lookup);
        perft_sum(b, moves, moves.len() as int, (depth - 1) as nat)
    }
}

/// The lines of `depth` moves that follow the first `k` moves.
pub open spec fn perft_sum(b: Board, moves: Seq<Move>, k: int, depth: nat) -> nat
    decreases depth, k + 1,
{
    if k <= 0 {
        0
    } else {
        perft_sum(b, moves, k - 1, depth) + perft_spec(played(b, moves[k - 1]), depth)
    }
}

proof fn lemma_sum_grows(b: Board, moves: Seq<Move>, k: int, n: int, depth: nat)
    requires
        0 <= k <= n,
    ensures
        perft_sum(b, moves, k, depth) <= perft_sum(b, moves, n, depth),
    decreases n - k,
{
    if k < n {
        lemma_sum_grows(b, moves, k, n - 1, depth);
    }
}

/// A move leads to one position.
pub proof fn lemma_played(b: Board, mv: Move, after: Board)
    requires
        b.leads_to(mv, after),
    ensures
        played(b, mv) == after,
{
    let x = played(b, mv);
    assert(b.leads_to(mv, x));
    assert(x.pawns@ =~= after.pawns@);
    assert(x.pawns =~= after.pawns);
    assert(x.walls_remaining@ =~= after.walls_remaining@);
    assert(x.walls_remaining =~= after.walls_remaining);
    assert(x =~= after);
}

/// Counts the lines of `depth` legal moves; the board is as before afterwards.
pub fn perft(board: &mut Board, depth: u32, scratch: &BfsScratch) -> (n: u64)
    requires
        old(board).wf(),
        scratch.wf(),
        old(board).move_number + depth < u32::MAX,
        perft_spec(*old(board), depth as nat) <= u64::MAX,
    ensures
        n == perft_spec(*old(board), depth as nat),
        *final(board) == *old(board),
    decreases depth,
{
    if depth == 0 {
        return 1;
    }
    let ghost b0 = *board;
    let ghost moves = legal_moves(b0, PawnGenMode::O1Lookup);
    let ghost d = (depth - 1) as nat;
    let mut buf: [Move; 140] = [Move::Pawn { row: 0, col: 0 }; 140];
    proof {
        lemma_legal_moves_bounded(b0, PawnGenMode::O1Lookup);
    }
    let cnt: usize = generate_legal_moves_slice(board, &mut buf, scratch);
    if depth == 1 {
        proof {
            lemma_leaf_sum(b0, moves, cnt as int);
        }
        return cnt as u64;
    }
    let mut total: u64 = 0;
    let mut i: usize = 0;
    while i < cnt
        invariant
            i <= cnt,
            cnt == moves.len(),
            cnt <= 140,
            depth > 1,
            d == (depth - 1) as nat,
            scratch.wf(),
            b0.wf(),
            *board == b0,
            moves == legal_moves(b0, PawnGenMode::O1Lookup),
            forall|k: int| 0 <= k < cnt ==> #[trigger] buf[k] == moves[k],
            b0.move_number + depth < u32::MAX,
            perft_sum(b0, moves, cnt as int, d) <= u64::MAX,
            total == perft_sum(b0, moves, i as int, d),
        decreases cnt - i,
    {
        let mv: Move = buf[i];
        assert(mv == moves[i as int]);
        proof {
            assert(moves.contains(mv));
            lemma_can_play(b0, mv);
            lemma_sum_grows(b0, moves, i + 1, cnt as int, d);
        }
        let undo: Undo = board.make_move(mv);
        let ghost after = *board;
        proof {
            lemma_legal_playable(b0, PawnGenMode::O1Lookup, mv, after);
            lemma_played(b0, mv, after);
        }
        let sub: u64 = perft(board, depth - 1, scratch);
        board.unmake_move(undo);
        proof {
            lemma_unmake_restores(b0, mv, after, undo, *board);
        }
        total = total + sub;
        i = i + 1;
    }
    total
}

/// Depth zero counts one per move.
proof fn lemma_leaf_sum(b: Board, moves: Seq<Move>, k: int)
    requires
        0 <= k,
    ensures
        perft_sum(b, moves, k, 0) == k,
    decreases k,
{
    if k > 0 {
        lemma_leaf_sum(b, moves, k - 1);
        reveal_with_fuel(perft_spec, 1);
        assert(perft_spec(played(b, moves[k - 1]), 0) == 1);
    }
}

/// A legal move can be played.
pub proof fn lemma_can_play(b: Board, mv: Move)
    requires
        b.wf(),
        b.move_number < u32::MAX,
        legal_moves(b, PawnGenMode::O1Lookup).contains(mv),
    ensures
        b.playable(mv),
{
    crate::movegen::laws::lemma_legal_fits(b, PawnGenMode::O1Lookup, mv);
}

proof fn lemma_sum_between(b: Board, moves: Seq<Move>, k: int, depth: nat, low: nat, high: nat)
    requires
        0 <= k <= moves.len(),
        forall|i: int|
            0 <= i < moves.len() ==> low <= perft_spec(played(b, #[trigger] moves[i]), depth)
                <= high,
    ensures
        low * k <= perft_sum(b, moves, k, depth) <= high * k,
    decreases k,
{
    if k > 0 {
        lemma_sum_between(b, moves, k - 1, depth, low, high);
        assert(low <= perft_spec(played(b, moves[k - 1]), depth) <= high);
        assert(low * k == low * (k - 1) + low) by (nonlinear_arith);
        assert(high * k == high * (k - 1) + high) by (nonlinear_arith);
    } else {
        assert(low * k == 0 && high * k == 0) by (nonlinear_arith)
            requires
                k == 0,
        ;
    }
}

/// Every legal move counts, and each for as many lines as follow it: where at
/// least `low` and at most `high` lines follow each, so many times the number of
/// legal moves are counted.
pub proof fn lemma_every_legal_move_counts(b: Board, depth: nat, low: nat, high: nat)
    requires
        forall|mv: Move|
            legal_moves(b, PawnGenMode::O1Lookup).contains(mv) ==> low <= perft_spec(
                #[trigger] played(b, mv),
                depth,
            ) <= high,
    ensures
        low * legal_moves(b, PawnGenMode::O1Lookup).len() <= perft_spec(b, depth + 1) <= high
            * legal_moves(b, PawnGenMode::O1Lookup).len(),
{
    let moves = legal_moves(b, PawnGenMode::O1Lookup);
    assert forall|i: int| 0 <= i < moves.len() implies low <= perft_spec(
        played(b, #[trigger] moves[i]),
        depth,
    ) <= high by {
        assert(moves.contains(moves[i]));
    }
    lemma_sum_between(b, moves, moves.len() as int, depth, low, high);
}

/// One move deep there are as many lines as legal moves, and there is one line of
/// no move.
pub proof fn lemma_short_lines(b: Board)
    ensures
        perft_spec(b, 0) == 1,
        perft_spec(b, 1) == legal_moves(b, PawnGenMode::O1Lookup).len(),
{
    assert forall|mv: Move|
        legal_moves(b, PawnGenMode::O1Lookup).contains(mv) implies 1 <= perft_spec(
        #[trigger] played(b, mv),
        0,
    ) <= 1 by {}
    lemma_every_legal_move_counts(b, 0, 1, 1);
}

} // verus!
