//! The legal moves of a position with what a search or a net makes of each.

use vstd::prelude::*;

use crate::ace::backing::{arrives, crowded};
use crate::ace::bridge::lemma_legal_on_grid;
use crate::ace::certify::lemma_legal_playable;
use crate::ace::convert::{board_move_to_ace, mirrors, to_ace};
use crate::ace::deepen::takes_win;
use crate::ace::engines::board_config;
use crate::ace::eval::{eval_ok, tame, NetInput, MATE};
use crate::ace::evallaws::{lemma_race_value_favours_the_leader, no_walls_in_hand};
use crate::ace::game::{AceGame, AceState};
use crate::ace::mirror::lemma_mirror_legal;
use crate::ace::node::MAX_DEPTH;
use crate::ace::replay::{open_game, play_open, MAX_GAME_LENGTH};
use crate::ace::search::{listens, AceSearch, Progress};
use crate::ace::think::{thinks, unlearnt, ThinkResult};
use crate::cat::order::Scored;
use crate::movegen::legal::{generate_legal_moves, legal_moves, PawnGenMode};
use crate::position::board::{Board, Move};

verus! {

/// `v` is what the move is worth for the side that makes it: by the value of
/// the position after it, or by a fresh search of that position to a depth.
pub open spec fn worth_after<N: Fn(NetInput) -> i32>(
    net: N,
    s: AceState,
    mv: Move,
    depth: int,
    time_ms: int,
    v: int,
) -> bool {
    if depth <= 0 {
        eval_ok(net, board_config().eval, s.after(to_ace(mv)), 0, -v)
    } else {
        exists|a: AceSearch, b: AceSearch, r: ThinkResult| #[trigger]
            thinks(net, a, b, None, time_ms, depth, false, r) && unlearnt(a) && a.config
                == board_config() && a.g@ == s.after(to_ace(mv)) && r.score == -v
    }
}

/// Every legal move with its worth: by its value where `depth` is 0, else by a
/// search of `time_ms` each.
pub fn root_scores<N: Fn(NetInput) -> i32, R: Fn(Progress)>(
    board: &Board,
    g: &AceGame,
    depth: i32,
    time_ms: u64,
    net: &N,
    report: &R,
) -> (r: Vec<Scored>)
    requires
        board.wf(),
        open_game(*g),
        mirrors(*board, g@),
        g@.hist.len() < MAX_GAME_LENGTH,
        depth <= MAX_DEPTH,
        tame(*net),
        listens(*report),
    ensures
        r@.len() == legal_moves(*board, PawnGenMode::O1Lookup).len(),
        forall|i: int|
            0 <= i < r@.len() ==> (#[trigger] r@[i]).0 == legal_moves(
                *board,
                PawnGenMode::O1Lookup,
            )[i] && worth_after(*net, g@, r@[i].0, depth as int, time_ms as int, r@[i].1 as int),
{
    let list: Vec<Move> = generate_legal_moves(board);
    let ghost legal = legal_moves(*board, PawnGenMode::O1Lookup);
    let mut r: Vec<Scored> = Vec::new();
    let mut i: usize = 0;
    while i < list.len()
        invariant
            i <= list@.len(),
            list@ == legal,
            legal == legal_moves(*board, PawnGenMode::O1Lookup),
            board.wf(),
            open_game(*g),
            mirrors(*board, g@),
            g@.hist.len() < MAX_GAME_LENGTH,
            depth <= MAX_DEPTH,
            tame(*net),
            listens(*report),
            r@.len() == i,
            forall|j: int|
                0 <= j < i ==> (#[trigger] r@[j]).0 == legal[j] && worth_after(
                    *net,
                    g@,
                    r@[j].0,
                    depth as int,
                    time_ms as int,
                    r@[j].1 as int,
                ),
        decreases list@.len() - i,
    {
        let mv: Move = list[i];
        proof {
            assert(legal.contains(mv));
            lemma_legal_on_grid(*board, mv);
        }
        let m: i16 = board_move_to_ace(mv);
        proof {
            assert(board.winner() is None);
            lemma_mirror_legal(*board, g@, PawnGenMode::O1Lookup, mv);
            lemma_legal_playable(g@, m);
        }
        let mut next: AceGame = g.duplicate();
        play_open(&mut next, m);
        let mut search: Box<AceSearch> = AceSearch::with_ti_movegen(next);
        let score: i32 = if depth <= 0 {
            search.eval_position(net)
        } else {
            let ghost a = *search;
            let found: ThinkResult = search.think(
                time_ms,
                depth,
                false,
                false,
                "rank",
                net,
                report,
            );
            assert(thinks(
                *net,
                a,
                *search,
                None,
                time_ms as int,
                depth as int,
                false,
                found,
            ));
            found.score
        };
        r.push((mv, -score));
        i += 1;
    }
    r
}

/// A move is worth to its maker what the position after it is worth to the
/// opponent, the other way round: after the last walls, by value alone, it is good
/// exactly if the opponent has the longer way. Verdicts of a table lie beyond
/// 17,000.
pub proof fn lemma_leading_after_a_move_is_worth_having<N: Fn(NetInput) -> i32>(
    net: N,
    s: AceState,
    mv: Move,
    time_ms: int,
    v: int,
)
    requires
        worth_after(net, s, mv, 0, time_ms, v),
        s.after(to_ace(mv)).wf(),
        no_walls_in_hand(s.after(to_ace(mv))),
        -17_000 < v < 17_000,
    ensures
        ({
            let t = s.after(to_ace(mv));
            &&& v > 0 <==> t.goal_dist(t.turn) > t.goal_dist(1 - t.turn)
            &&& v < 0 <==> t.goal_dist(t.turn) <= t.goal_dist(1 - t.turn)
        }),
{
    lemma_race_value_favours_the_leader(net, board_config().eval, s.after(to_ace(mv)), 0, -v);
}

/// A move that lets the opponent arrive is worth a loss at once, to every search
/// that finishes an iteration.
pub proof fn lemma_letting_the_opponent_arrive_loses<N: Fn(NetInput) -> i32>(
    net: N,
    s: AceState,
    mv: Move,
    depth: int,
    time_ms: int,
    v: int,
)
    requires
        worth_after(net, s, mv, depth, time_ms, v),
        depth > 0,
        s.after(to_ace(mv)).winner_spec() == -1,
        !crowded(s.after(to_ace(mv))),
        exists|m: i16| #[trigger] arrives(s.after(to_ace(mv)), m),
    ensures
        v == -(MATE - 1) || exists|a: AceSearch, b: AceSearch, r: ThinkResult| #[trigger]
            thinks(net, a, b, None, time_ms, depth, false, r) && a.g@ == s.after(to_ace(mv))
                && r.score == -v && r.depth_log@.len() == 0,
{
    let (a, b, r) = choose|a: AceSearch, b: AceSearch, r: ThinkResult| #[trigger]
        thinks(net, a, b, None, time_ms, depth, false, r) && unlearnt(a) && a.config
            == board_config() && a.g@ == s.after(to_ace(mv)) && r.score == -v;
    if r.depth_log@.len() > 0 {
        assert(takes_win(a.g@, r.mv, r.score as int));
    }
}

} // verus!
