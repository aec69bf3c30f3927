//! What the moves of a node say about its score.

use vstd::prelude::*;

use crate::ace::certify::legal_in;
use crate::ace::eval::{eval_ok, EvalMode, NetInput, MATE};
use crate::ace::game::AceState;
use crate::ace::node::repeats_history;

verus! {

/// The side that has just moved has arrived.
pub open spec fn opponent_home(s: AceState) -> bool {
    (s.turn == 1 && s.p0 < 9) || (s.turn == 0 && s.p1 >= 72)
}

/// A node: its position, the keys of the positions above it, how it is
/// evaluated, and the depth left.
#[verifier::ext_equal]
pub struct Node {
    pub s: AceState,
    pub above: Seq<(u32, u32)>,
    pub mode: EvalMode,
    pub depth: int,
    pub ply: int,
}

/// The position is on the line that leads to it, or was in the game before.
pub open spec fn seen(x: Node, t: AceState) -> bool {
    ||| x.above.contains((t.lo, t.hi))
    ||| (t.lo == x.s.lo && t.hi == x.s.hi)
    ||| repeats_history(t)
}

/// A score of the position `t` at a ply, for the side to move: a loss where the
/// opponent has arrived, and only there; nothing where the position was seen or
/// the line is at its end; the value where no depth is left.
pub open spec fn reply_ok<N: Fn(NetInput) -> i32>(
    net: N,
    mode: EvalMode,
    t: AceState,
    ply: int,
    leaf: bool,
    was_seen: bool,
    y: int,
) -> bool {
    &&& -(MATE - ply) <= y <= MATE - ply
    &&& (y == -(MATE - ply)) == opponent_home(t)
    &&& !opponent_home(t) ==> {
        if ply >= 63 || was_seen {
            y == 0
        } else {
            leaf ==> eval_ok(net, mode, t, 0, y)
        }
    }
}

/// `y` is a score of the position after a move.
pub open spec fn replies<N: Fn(NetInput) -> i32>(net: N, x: Node, m: i16, y: int) -> bool {
    reply_ok(net, x.mode, x.s.after(m), x.ply + 1, x.depth == 1, seen(x, x.s.after(m)), y)
}

/// The move scores no more than `v`.
pub open spec fn held<N: Fn(NetInput) -> i32>(net: N, x: Node, m: i16, v: int) -> bool {
    exists|y: int| #[trigger] replies(net, x, m, y) && -y <= v
}

/// A move that no node leaves out: any legal move at the root, any pawn move
/// below it.
pub open spec fn counts(x: Node, m: i16) -> bool {
    x.s.winner_spec() == -1 && legal_in(x.s, m) && (x.ply == 0 || m < 100)
}

/// No move that counts scores more than `v`.
pub open spec fn tops<N: Fn(NetInput) -> i32>(net: N, x: Node, v: int) -> bool {
    forall|m: i16| #[trigger] counts(x, m) ==> held(net, x, m, v)
}

/// A move that arrives leads to a position of the game.
pub open spec fn crowded(s: AceState) -> bool {
    exists|m: i16| #[trigger] arrives(s, m) && repeats_history(s.after(m))
}

/// A score of a node within the mate scores of its ply, except where the window
/// lies outside of them.
pub open spec fn score_ok(s: AceState, alpha: int, beta: int, ply: int, v: int) -> bool {
    &&& -200_000 <= v <= 200_000
    &&& v >= beta || v > -(MATE - ply) || opponent_home(s)
    &&& v <= alpha || v <= MATE - ply
    &&& opponent_home(s) ==> v == -(MATE - ply)
}

/// The move arrives.
pub open spec fn arrives(s: AceState, m: i16) -> bool {
    legal_in(s, m) && opponent_home(s.after(m))
}

pub proof fn lemma_held_more<N: Fn(NetInput) -> i32>(net: N, x: Node, m: i16, v: int, w: int)
    requires
        held(net, x, m, v),
        v <= w,
    ensures
        held(net, x, m, w),
{
    let y = choose|y: int| #[trigger] replies(net, x, m, y) && -y <= v;
    assert(replies(net, x, m, y) && -y <= w);
}

/// A node with a move that arrives scores a win in one ply, and only moves that
/// arrive score that.
pub proof fn lemma_arrival_tops<N: Fn(NetInput) -> i32>(net: N, x: Node, m: i16, best: i16, v: int)
    requires
        counts(x, m),
        opponent_home(x.s.after(m)),
        tops(net, x, v),
        replies(net, x, best, -v),
    ensures
        v == MATE - (x.ply + 1),
        opponent_home(x.s.after(best)),
{
    assert(held(net, x, m, v));
    let y = choose|y: int| #[trigger] replies(net, x, m, y) && -y <= v;
    assert(y == -(MATE - (x.ply + 1)));
}

} // verus!
