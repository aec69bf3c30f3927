//! A board and a game that play the same moves.

use vstd::prelude::*;

use crate::ace::certify::{legal_in, lemma_legal_playable};
use crate::ace::convert::{
    is_flip, keys_match, lemma_after_keeps_keys, lemma_mirror_moves, lemma_start_keys, mirrors,
    on_grid, to_ace,
};
use crate::ace::game::{arrays_match, dir_bit, lemma_ace_unmake_restores, AceGame, AceState};
use crate::ace::replay::{start_keys, start_state};
use crate::arena::start_board;
use crate::position::board::{Board, Move};
use crate::util::bits::{bit64, lemma_bits64, lemma_ext64};
use crate::util::grid::slot;

verus! {

/// Board and game play the moves from the start, each legal where it is played.
pub open spec fn plays_along(
    moves: Seq<Move>,
    boards: Seq<Board>,
    states: Seq<AceState>,
) -> bool {
    &&& boards.len() == moves.len() + 1
    &&& states.len() == moves.len() + 1
    &&& start_board(boards[0])
    &&& states[0] == start_state()
    &&& forall|i: int| 0 <= i < boards.len() ==> (#[trigger] boards[i]).wf()
    &&& forall|i: int|
        0 <= i < moves.len() ==> {
            &&& on_grid(#[trigger] moves[i])
            &&& boards[i].playable(moves[i])
            &&& legal_in(states[i], to_ace(moves[i]))
            &&& boards[i].leads_to(moves[i], boards[i + 1])
            &&& states[i + 1] == states[i].after(to_ace(moves[i]))
        }
}

/// Two words that are flips of one word are one.
proof fn lemma_flip_once(m: u64, f: u64, g: u64)
    requires
        is_flip(m, f),
        is_flip(m, g),
    ensures
        f == g,
{
    assert forall|i: int| 0 <= i < 64 implies bit64(f, i) == bit64(g, i) by {
        assert(slot(f, i / 8, i % 8) == slot(m, 7 - i / 8, i % 8));
        assert(slot(g, i / 8, i % 8) == slot(m, 7 - i / 8, i % 8));
        assert(i / 8 * 8 + i % 8 == i);
    }
    lemma_ext64(f, g);
}

/// The start on the board and in the game.
proof fn lemma_starts_alike(b: Board)
    requires
        start_board(b),
    ensures
        mirrors(b, start_state()),
        start_state().wf(),
        keys_match(start_state()),
{
    reveal(start_keys);
    assert(b.pawns[0] == b.pawns@[0] && b.pawns[1] == b.pawns@[1]);
    assert(b.walls_remaining[0] == b.walls_remaining@[0]);
    assert(b.walls_remaining[1] == b.walls_remaining@[1]);
    assert forall|r: int, c: int| 0 <= r < 8 && 0 <= c < 8 implies #[trigger] slot(0u64, r, c) == slot(
        0u64,
        7 - r,
        c,
    ) by {
        lemma_bits64(0, 0, r * 8 + c);
        lemma_bits64(0, 0, (7 - r) * 8 + c);
    }
    lemma_start_keys(start_state());
}

/// Along the moves the game shows on the board and its keys are right.
pub proof fn lemma_stays_mirrored(
    moves: Seq<Move>,
    boards: Seq<Board>,
    states: Seq<AceState>,
    i: int,
)
    requires
        plays_along(moves, boards, states),
        0 <= i <= moves.len(),
        moves.len() < i32::MAX,
    ensures
        mirrors(boards[i], states[i]),
        states[i].wf(),
        keys_match(states[i]),
        states[i].hist.len() == i,
    decreases i,
{
    if i == 0 {
        lemma_starts_alike(boards[0]);
    } else {
        lemma_stays_mirrored(moves, boards, states, i - 1);
        let b = boards[i - 1];
        let s = states[i - 1];
        let mv = moves[i - 1];
        let m = to_ace(mv);
        assert(b.wf());
        lemma_legal_playable(s, m);
        lemma_ace_unmake_restores(s, m);
        lemma_after_keeps_keys(s, m);
        lemma_mirror_moves(b, mv, boards[i], s);
    }
}

proof fn bv_low_bits(a: u8, b: u8)
    by (bit_vector)
    requires
        a < 16,
        b < 16,
        (a & 1 != 0) == (b & 1 != 0),
        (a & 2 != 0) == (b & 2 != 0),
        (a & 4 != 0) == (b & 4 != 0),
        (a & 8 != 0) == (b & 8 != 0),
    ensures
        a == b,
{
}

/// The arrays of a game follow from its wall words.
proof fn lemma_same_arrays(c: AceGame, g: AceGame)
    requires
        arrays_match(c.hw@, c.vw@, c.blocked@, c.h_word, c.v_word),
        arrays_match(g.hw@, g.vw@, g.blocked@, g.h_word, g.v_word),
        c.h_word == g.h_word,
        c.v_word == g.v_word,
    ensures
        c.hw == g.hw,
        c.vw == g.vw,
        c.blocked == g.blocked,
{
    assert forall|i: int| 0 <= i < 81 implies #[trigger] c.blocked@[i] == g.blocked@[i] by {
        assert(dir_bit(c.blocked@[i], 0) == dir_bit(g.blocked@[i], 0));
        assert(dir_bit(c.blocked@[i], 1) == dir_bit(g.blocked@[i], 1));
        assert(dir_bit(c.blocked@[i], 2) == dir_bit(g.blocked@[i], 2));
        assert(dir_bit(c.blocked@[i], 3) == dir_bit(g.blocked@[i], 3));
        bv_low_bits(c.blocked@[i], g.blocked@[i]);
    }
    assert(c.hw@ =~= g.hw@);
    assert(c.vw@ =~= g.vw@);
    assert(c.blocked@ =~= g.blocked@);
    assert(c.hw =~= g.hw);
    assert(c.vw =~= g.vw);
    assert(c.blocked =~= g.blocked);
}

/// A game converted from a board that was reached by legal moves from the start
/// agrees in every field of the position with a game that made the same moves.
pub proof fn lemma_converter_matches_replay(
    moves: Seq<Move>,
    boards: Seq<Board>,
    states: Seq<AceState>,
    c: AceGame,
    g: AceGame,
)
    requires
        plays_along(moves, boards, states),
        moves.len() < i32::MAX,
        c.wf(),
        mirrors(boards.last(), c@),
        keys_match(c@),
        g.wf(),
        g@ == states.last(),
    ensures
        c.pawn == g.pawn,
        c.wl == g.wl,
        c.turn == g.turn,
        c.hw == g.hw,
        c.vw == g.vw,
        c.blocked == g.blocked,
        c.hash_lo == g.hash_lo,
        c.hash_hi == g.hash_hi,
{
    lemma_stays_mirrored(moves, boards, states, moves.len() as int);
    let b = boards.last();
    lemma_flip_once(b.horizontal_walls, c@.h, g@.h);
    lemma_flip_once(b.vertical_walls, c@.v, g@.v);
    assert(c.pawn =~= g.pawn);
    assert(c.wl =~= g.wl);
    lemma_same_arrays(c, g);
}

} // verus!
