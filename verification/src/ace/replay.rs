//! Games from lists of move names.

use vstd::prelude::*;
use vstd::utf8::encode_utf8;

use crate::ace::convert::{
    is_ace_move, lemma_after_keeps_keys, lemma_move_round_trip, lemma_start_keys, on_grid, to_ace,
};
use crate::ace::game::{
    lemma_ace_unmake_restores, move_orientation, wall_slot, type_orientation, AceGame, AceState,
    HistItem,
};
use crate::ace::think::searchable;
use crate::position::board::Board;
use crate::util::notation::parse_algebraic;

verus! {

/// Longest game that is played on: the length and the search below it are
/// counted in 32 bits.
pub const MAX_GAME_LENGTH: usize = 0x7FFE_0000;

/// A game that can still go on.
pub open spec fn open_game(g: AceGame) -> bool {
    searchable(g) && g@.hist.len() <= MAX_GAME_LENGTH
}

impl AceGame {
    /// A copy.
    pub fn duplicate(&self) -> (g: AceGame)
        ensures
            g@ == self@,
            self.wf() ==> g.wf(),
    {
        let mut hist: Vec<HistItem> = Vec::new();
        let mut i: usize = 0;
        while i < self.hist.len()
            invariant
                i <= self.hist@.len(),
                hist@ == self.hist@.subrange(0, i as int),
            decreases self.hist@.len() - i,
        {
            hist.push(self.hist[i]);
            i += 1;
            assert(hist@ =~= self.hist@.subrange(0, i as int));
        }
        assert(hist@ =~= self.hist@);
        AceGame {
            hw: self.hw,
            vw: self.vw,
            blocked: self.blocked,
            h_word: self.h_word,
            v_word: self.v_word,
            pawn: self.pawn,
            wl: self.wl,
            turn: self.turn,
            hash_lo: self.hash_lo,
            hash_hi: self.hash_hi,
            hist,
            last_wall_ply: self.last_wall_ply,
            wall_stamp: self.wall_stamp,
        }
    }
}

/// The starting game.
pub fn start_game() -> (g: AceGame)
    ensures
        open_game(g),
        g@ == start_state(),
{
    let g: AceGame = AceGame::new();
    proof {
        reveal(start_keys);
        lemma_start_keys(g@);
    }
    g
}

/// The keys of the starting position.
#[verifier::opaque]
pub open spec fn start_keys() -> (u32, u32) {
    (
        crate::ace::game::low_half(crate::ace::game::key_word(0, 76))
            ^ crate::ace::game::low_half(crate::ace::game::key_word(1, 4)),
        crate::ace::game::high_half(crate::ace::game::key_word(0, 76))
            ^ crate::ace::game::high_half(crate::ace::game::key_word(1, 4)),
    )
}

/// The starting position.
pub open spec fn start_state() -> AceState {
    AceState {
        h: 0,
        v: 0,
        p0: 76,
        p1: 4,
        wl0: 10,
        wl1: 10,
        turn: 0,
        lo: start_keys().0,
        hi: start_keys().1,
        hist: Seq::empty(),
        last_wall_ply: 0,
        stamp: 0,
    }
}

/// The move that a name means in a position, if it means one that can be
/// played there.
pub open spec fn word_move(s: AceState, w: Seq<char>) -> Option<i16> {
    match Board::algebraic_move(encode_utf8(w)) {
        Some(mv) => if on_grid(mv) && s.playable(to_ace(mv)) && s.hist.len() < MAX_GAME_LENGTH {
            Some(to_ace(mv))
        } else {
            None
        },
        None => None,
    }
}

/// Whether a move can be played: a pawn move always, a wall with one in hand
/// where none is in the way.
pub fn can_play(g: &AceGame, m: i16) -> (r: bool)
    requires
        g.wf(),
        is_ace_move(m),
    ensures
        r == g@.playable(m),
{
    if m < 81 {
        return true;
    }
    if g.wl[g.turn] <= 0 {
        return false;
    }
    let kind: usize = if m < 200 {
        0
    } else {
        1
    };
    let s: usize = (m % 100) as usize;
    assert(wall_slot(m) == s && s < 64);
    assert(move_orientation(m) == type_orientation(kind as int));
    let r: bool = g.wall_fits(kind, s);
    assert(r == !g@.wall_collides(wall_slot(m), move_orientation(m)));
    assert(g@.wl(g@.turn) > 0);
    r
}

/// The move that a name means, if it means one that can be played.
pub fn read_move(g: &AceGame, w: &str) -> (r: Option<i16>)
    requires
        g.wf(),
    ensures
        r == word_move(g@, w@),
        r matches Some(m) ==> is_ace_move(m) && g@.playable(m) && g@.hist.len() < MAX_GAME_LENGTH,
{
    match parse_algebraic(w) {
        None => None,
        Some(mv) => {
            proof {
                lemma_move_round_trip(mv, 0);
            }
            let m: i16 = crate::ace::convert::board_move_to_ace(mv);
            if g.hist_len() < MAX_GAME_LENGTH && can_play(g, m) {
                Some(m)
            } else {
                None
            }
        },
    }
}

/// The texts of a list.
pub open spec fn names(v: Seq<String>) -> Seq<Seq<char>> {
    Seq::new(v.len(), |i: int| v[i]@)
}

/// Where a list of names leads.
pub enum Replay {
    /// All were played.
    At(AceState),
    /// The game was over before the move of this index.
    Past(int),
    /// The name of this index means no move that can be played.
    Unplayable(int),
}

/// Where the names `from..n` lead.
pub open spec fn replayed(s: AceState, words: Seq<Seq<char>>, from: int, n: int) -> Replay
    decreases n - from,
{
    if n <= from {
        Replay::At(s)
    } else {
        match replayed(s, words, from, n - 1) {
            Replay::At(t) => if t.winner_spec() >= 0 {
                Replay::Past(n - 1)
            } else {
                match word_move(t, words[n - 1]) {
                    Some(m) => Replay::At(t.after(m)),
                    None => Replay::Unplayable(n - 1),
                }
            },
            other => other,
        }
    }
}

proof fn lemma_stuck(s: AceState, words: Seq<Seq<char>>, from: int, k: int, n: int)
    requires
        from <= k <= n,
        !(replayed(s, words, from, k) is At),
    ensures
        replayed(s, words, from, n) == replayed(s, words, from, k),
    decreases n - k,
{
    if k < n {
        lemma_stuck(s, words, from, k, n - 1);
    }
}

/// How a replay went.
#[derive(Debug, Clone, Copy, PartialEq, Eq, Structural)]
pub enum Outcome {
    Done,
    Past(usize),
    Unplayable(usize),
}

/// Plays the names from index `from` on, as far as that goes.
pub fn replay_onto(g: &mut AceGame, words: &Vec<String>, from: usize) -> (r: Outcome)
    requires
        open_game(*old(g)),
        from <= words@.len(),
    ensures
        open_game(*final(g)),
        match r {
            Outcome::Done => replayed(old(g)@, names(words@), from as int, words@.len() as int)
                == Replay::At(final(g)@),
            Outcome::Past(i) => from <= i < words@.len() && replayed(
                old(g)@,
                names(words@),
                from as int,
                words@.len() as int,
            ) == Replay::Past(i as int) && replayed(old(g)@, names(words@), from as int, i as int)
                == Replay::At(final(g)@),
            Outcome::Unplayable(i) => from <= i < words@.len() && replayed(
                old(g)@,
                names(words@),
                from as int,
                words@.len() as int,
            ) == Replay::Unplayable(i as int) && replayed(old(g)@, names(words@), from as int, i as int)
                == Replay::At(final(g)@),
        },
{
    let ghost s = g@;
    let mut i: usize = from;
    assert(names(words@).len() == words@.len());
    while i < words.len()
        invariant
            from <= i <= words@.len(),
            open_game(*g),
            s == old(g)@,
            replayed(s, names(words@), from as int, i as int) == Replay::At(g@),
        decreases words@.len() - i,
    {
        if g.winner() >= 0 {
            proof {
                lemma_stuck(s, names(words@), from as int, i + 1, words@.len() as int);
            }
            return Outcome::Past(i);
        }
        match read_move(g, words[i].as_str()) {
            None => {
                proof {
                    lemma_stuck(s, names(words@), from as int, i + 1, words@.len() as int);
                }
                return Outcome::Unplayable(i);
            },
            Some(m) => {
                play_open(g, m);
            },
        }
        i += 1;
    }
    Outcome::Done
}

/// Plays a move.
pub fn play_open(g: &mut AceGame, m: i16)
    requires
        open_game(*old(g)),
        old(g)@.playable(m),
        old(g)@.hist.len() < MAX_GAME_LENGTH,
    ensures
        open_game(*final(g)),
        final(g)@ == old(g)@.after(m),
{
    proof {
        lemma_after_keeps_keys(g@, m);
        lemma_ace_unmake_restores(g@, m);
    }
    g.make_move(m);
}

/// Replaying a list and replaying a beginning and the rest come to the same.
pub proof fn lemma_replay_in_parts(s: AceState, words: Seq<Seq<char>>, k: int, n: int, t: AceState)
    requires
        0 <= k <= n,
        replayed(s, words, 0, k) == Replay::At(t),
    ensures
        replayed(s, words, 0, n) == replayed(t, words, k, n),
    decreases n - k,
{
    if k < n {
        lemma_replay_in_parts(s, words, k, n - 1, t);
    }
}

} // verus!
