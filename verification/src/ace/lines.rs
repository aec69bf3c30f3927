//! How deep the score of a search goes.
//!
//! A score inside the window is the score of a line of moves. Along the line
//! every move takes one ply of the depth and no more, so a search of depth `d`
//! looks `d` plies ahead, unless the game is over before, the position was seen,
//! the line is too long, nothing can be moved, or the table answers.

use vstd::prelude::*;

use crate::ace::backing::{arrives, opponent_home, Node};
use crate::ace::bridge::TiBridge;
use crate::ace::certify::{legal_in, lemma_legal_playable};
use crate::ace::convert::is_ace_move;
use crate::ace::deepen::{entry_searched, name_of, root_node, root_search};
use crate::ace::eval::{eval_ok, NetInput, MATE, NET_LIMIT};
use crate::ace::game::{lemma_ace_unmake_restores, lemma_pawn_cells, AceState};
use crate::ace::movelist::{
    lemma_node_moves, lemma_walls_listed, node_moves, walls_listed, WallScene,
};
use crate::ace::node::{repeats_history, MAX_DEPTH};
use crate::ace::order::{lemma_sorted, lemma_sorted_lists, plan_spec, sorted_desc, ChildPlan, OrderKey};
use crate::ace::score::{
    by_margin, by_moves, by_pass, by_table, child_node, closed, closed_score, floor_ok, greatest, kid,
    lemma_score_unfolds, left_out, move_score, node_order, one_ok, ordered_by, pass_query, run, run_ok, scores,
    seals_off, search_score, step_score, Query, Style,
};
use crate::ace::search::AceDepthLogEntry;

verus! {

/// Depth of the first search of a move.
pub open spec fn first_depth(p: ChildPlan) -> int {
    match p {
        ChildPlan::Extended { depth } => depth as int,
        ChildPlan::Reduced { depth, .. } => depth as int,
        ChildPlan::Scouted { depth } => depth as int,
        ChildPlan::Full { depth } => depth as int,
    }
}

/// Depth of the search that settles a move which beats what it has to.
pub open spec fn last_depth(p: ChildPlan) -> int {
    match p {
        ChildPlan::Extended { depth } => depth as int,
        ChildPlan::Reduced { full, .. } => full as int,
        ChildPlan::Scouted { depth } => depth as int,
        ChildPlan::Full { depth } => depth as int,
    }
}

/// A wall that is not the table's move, with depth left to save or to spend.
pub open spec fn quiet_wall(depth: int, m: i16, tt_move: i16) -> bool {
    depth >= 3 && m >= 100 && m != tt_move
}

/// A move takes one ply. Only late walls are searched less deep, by three plies
/// at most, and only early ones deeper, by two at most; a move that beats what it
/// has to is never settled by fewer than all plies but one.
pub proof fn lemma_plan_takes_one_ply(i: int, depth: int, m: i16, tt_move: i16, eme: bool)
    requires
        i >= 0,
        1 <= depth <= i32::MAX - 2,
    ensures
        ({
            let p = plan_spec(i, depth, m, tt_move, eme);
            &&& !(quiet_wall(depth, m, tt_move) && (i >= 4 || eme && 1 <= i <= 2))
                ==> first_depth(p) == depth - 1 && last_depth(p) == depth - 1
            &&& depth - 1 <= last_depth(p) <= depth + 1
            &&& 0 <= first_depth(p) <= last_depth(p)
            &&& depth - 4 <= first_depth(p)
            &&& first_depth(p) < depth - 1 ==> quiet_wall(depth, m, tt_move) && i >= 4
            &&& last_depth(p) > depth - 1 ==> eme && quiet_wall(depth, m, tt_move)
        }),
{
}

/// Without extensions no move is searched deeper than one that comes before it,
/// and no move less deep at a node with more depth.
pub proof fn lemma_plan_order(i: int, j: int, depth: int, more: int, m: i16, tt_move: i16)
    requires
        0 <= i <= j,
        1 <= depth <= more <= i32::MAX - 2,
    ensures
        first_depth(plan_spec(j, depth, m, tt_move, false)) <= first_depth(
            plan_spec(i, depth, m, tt_move, false),
        ),
        more == depth + 1 || more == depth ==> last_depth(
            plan_spec(i, depth, m, tt_move, false),
        ) + (more - depth) == last_depth(plan_spec(i, more, m, tt_move, false)),
{
}

/// Every move of a node that is not a late or an extended wall has its score from
/// a search of the position after it, with all plies of the node but one.
pub proof fn lemma_move_searched<N: Fn(NetInput) -> i32>(
    net: N,
    st: Style,
    x: Node,
    alpha: int,
    beta: int,
    tt_move: i16,
    moves: Seq<i16>,
    got: Seq<Option<int>>,
    i: int,
)
    requires
        run_ok(st, x, alpha, beta, tt_move, moves, got, scores(net, st)),
        0 <= i < got.len(),
        got[i] is Some,
        1 <= x.depth <= i32::MAX - 2,
    ensures
        exists|d: int, a: int, b: int| #[trigger]
            search_score(net, st, kid(x, moves[i], d, a, b, -(got[i]->0))) && x.depth - 4 <= d && d
                >= 0 && (!(quiet_wall(x.depth, moves[i], tt_move) && (i >= 4 || st.eme && 1 <= i
                <= 2)) ==> d == x.depth - 1),
{
    let told = scores(net, st);
    let m = moves[i];
    let y = got[i]->0;
    let plan = plan_spec(i, x.depth, m, tt_move, st.eme);
    lemma_plan_takes_one_ply(i, x.depth, m, tt_move, st.eme);
    assert(one_ok(st, x, alpha, beta, tt_move, moves, got, i, told));
    let a = choose|a: int| #[trigger]
        floor_ok(alpha, got, i, a) && move_score(x, m, plan, a, beta, y, told);
    reveal(move_score);
    match plan {
        ChildPlan::Extended { depth } => {
            assert(search_score(net, st, kid(x, m, depth as int, -beta, -a, -y)));
        },
        ChildPlan::Full { depth } => {
            assert(search_score(net, st, kid(x, m, depth as int, -beta, -a, -y)));
        },
        ChildPlan::Reduced { depth, full } => {
            let u = choose|u: int| #[trigger]
                told(kid(x, m, depth as int, -a - 1, -a, u)) && if -u > a {
                    told(kid(x, m, full as int, -beta, -a, -y))
                } else {
                    y == -u
                };
            if -u > a {
                assert(search_score(net, st, kid(x, m, full as int, -beta, -a, -y)));
            } else {
                assert(search_score(net, st, kid(x, m, depth as int, -a - 1, -a, -y)));
            }
        },
        ChildPlan::Scouted { depth } => {
            let u = choose|u: int| #[trigger]
                told(kid(x, m, depth as int, -a - 1, -a, u)) && if a < -u < beta {
                    told(kid(x, m, depth as int, -beta, -a, -y))
                } else {
                    y == -u
                };
            if a < -u < beta {
                assert(search_score(net, st, kid(x, m, depth as int, -beta, -a, -y)));
            } else {
                assert(search_score(net, st, kid(x, m, depth as int, -a - 1, -a, -y)));
            }
        },
    }
}

/// A position that can be played on from a ply: its counters stay in range for as
/// long as a line can be.
pub open spec fn lasting(s: AceState, ply: int) -> bool {
    &&& s.wf()
    &&& s.hist.len() + 64 - ply < i32::MAX
    &&& s.wl0 <= i32::MAX
    &&& s.wl1 <= i32::MAX
}

/// A move of a node's list that is not sealed off is legal.
pub proof fn lemma_tried_is_legal(st: Style, x: Node, tt_move: i16, moves: Seq<i16>, i: int)
    requires
        x.s.wf(),
        x.ply >= 0,
        node_order(st.gen, x.s, x.depth, x.ply, tt_move, moves),
        0 <= i < moves.len(),
        !seals_off(st.gen, x.s, x.ply, moves[i]),
    ensures
        legal_in(x.s, moves[i]),
{
    let (bridge, scene, key) = choose|bridge: Option<TiBridge>, scene: WallScene, key: OrderKey|
        #[trigger] ordered_by(st.gen, x.s, x.depth, x.ply, tt_move, bridge, scene, key, moves);
    let list = node_moves(st.gen, bridge, x.s, scene, x.ply);
    let n = list.len() as int;
    lemma_node_moves(st.gen, bridge, x.s, scene, x.ply);
    lemma_sorted(list, key, n);
    assert(list.subrange(0, n) =~= list);
    let m = moves[i];
    assert(list.contains(sorted_desc(list, key, n)[i]));
    let j = choose|j: int| 0 <= j < list.len() && list[j] == m;
    assert(x.s.playable(list[j]) && is_ace_move(list[j]));
    if !(x.ply == 0 || st.gen.from_board(x.ply)) && m < 100 {
        lemma_walls_listed(st.gen.rule(x.ply), scene, x.s, 64);
        let cells = x.s.pawn_cells();
        if j < cells.len() {
            assert(cells[j] == m);
        } else {
            let walls = walls_listed(st.gen.rule(x.ply), scene, x.s, 64);
            assert(walls[j - cells.len()] == m);
        }
        assert(cells.contains(m));
    }
}

/// A score inside of its window.
pub open spec fn inside(q: Query) -> bool {
    q.alpha < q.v < q.beta
}

/// The node is answered by the table, or nothing could be searched.
#[verifier::opaque]
pub open spec fn stops_short<N: Fn(NetInput) -> i32>(net: N, st: Style, q: Query) -> bool {
    by_table(q, scores(net, st)) || eval_ok(net, st.eval, q.x.s, q.x.depth, q.v) && exists|
        tt_move: i16,
        moves: Seq<i16>,
    |
        #![trigger node_order(st.gen, q.x.s, q.x.depth, q.x.ply, tt_move, moves)]
        node_order(st.gen, q.x.s, q.x.depth, q.x.ply, tt_move, moves) && forall|i: int|
            0 <= i < moves.len() ==> #[trigger] seals_off(st.gen, q.x.s, q.x.ply, moves[i])
}

/// The first best move of a node: where a score inside the window comes from
/// moves, some move attains it by a search that is inside its window too and
/// has all plies but one.
pub proof fn lemma_best_searched_in_full<N: Fn(NetInput) -> i32>(
    net: N,
    st: Style,
    q: Query,
    tt_move: i16,
    moves: Seq<i16>,
    got: Seq<Option<int>>,
) -> (k: (int, Query))
    requires
        run(net, st, q, tt_move, moves, got, scores(net, st)),
        inside(q),
        some_tried(got),
        1 <= q.x.depth <= i32::MAX - 2,
    ensures
        0 <= k.0 < moves.len(),
        search_score(net, st, k.1),
        inside(k.1),
        k.1.v == -q.v,
        q.x.depth - 1 <= k.1.x.depth <= q.x.depth + 1,
        k.1.x == child_node(q.x, moves[k.0], k.1.x.depth),
        !seals_off(st.gen, q.x.s, q.x.ply, moves[k.0]),
{
    let told = scores(net, st);
    let x = q.x;
    let v = q.v;
    assert(greatest(got, v));
    let some = choose|i: int| 0 <= i < got.len() && #[trigger] got[i] == Some(v);
    let j = lemma_least(got, v, some);
    let m = moves[j];
    let plan = plan_spec(j, x.depth, m, tt_move, st.eme);
    lemma_plan_takes_one_ply(j, x.depth, m, tt_move, st.eme);
    assert(one_ok(st, x, q.alpha, q.beta, tt_move, moves, got, j, told));
    let a = choose|a: int| #[trigger]
        floor_ok(q.alpha, got, j, a) && move_score(x, m, plan, a, q.beta, v, told);
    if a != q.alpha {
        let e = choose|e: int| 0 <= e < j && #[trigger] got[e] == Some(a);
        assert(a <= v);
        assert(a != v);
    }
    assert(a < v);
    reveal(move_score);
    match plan {
        ChildPlan::Extended { depth } => (j, kid(x, m, depth as int, -q.beta, -a, -v)),
        ChildPlan::Full { depth } => (j, kid(x, m, depth as int, -q.beta, -a, -v)),
        ChildPlan::Reduced { depth, full } => (j, kid(x, m, full as int, -q.beta, -a, -v)),
        ChildPlan::Scouted { depth } => (j, kid(x, m, depth as int, -q.beta, -a, -v)),
    }
}

/// The first place of a score.
proof fn lemma_least(got: Seq<Option<int>>, v: int, i: int) -> (j: int)
    requires
        0 <= i < got.len(),
        got[i] == Some(v),
    ensures
        0 <= j <= i,
        got[j] == Some(v),
        forall|e: int| 0 <= e < j ==> #[trigger] got[e] != Some(v),
    decreases i,
{
    if exists|e: int| 0 <= e < i && #[trigger] got[e] == Some(v) {
        let e = choose|e: int| 0 <= e < i && #[trigger] got[e] == Some(v);
        lemma_least(got, v, e)
    } else {
        i
    }
}

/// `k` is one ply further down: the position after a legal move, at the next ply, a
/// search with all plies but one whose score is that of `q` for the other side.
#[verifier::opaque]
pub open spec fn next_on_line<N: Fn(NetInput) -> i32>(
    net: N,
    st: Style,
    q: Query,
    m: i16,
    k: Query,
) -> bool {
    &&& !opponent_home(q.x.s)
    &&& search_score(net, st, k)
    &&& legal_in(q.x.s, m)
    &&& inside(k)
    &&& k.v == -q.v
    &&& k.x.s == q.x.s.after(m)
    &&& k.x.ply == q.x.ply + 1
    &&& q.x.depth - 1 <= k.x.depth <= q.x.depth + 1
    &&& k.x.above == q.x.above.push((q.x.s.lo, q.x.s.hi))
}

/// The line leads from `q` to `end`.
pub open spec fn leads<N: Fn(NetInput) -> i32>(
    net: N,
    st: Style,
    q: Query,
    line: Seq<i16>,
    end: Query,
) -> bool
    decreases line.len(),
{
    if line.len() == 0 {
        end == q
    } else {
        exists|k: Query| #[trigger]
            next_on_line(net, st, q, line[0], k) && leads(net, st, k, line.drop_first(), end)
    }
}

/// A score inside the window is that of a line: after it the game is over, the
/// line too long, the position seen before, or all plies of the search are
/// played and the position has that value; or the table answers, or nothing can
/// be moved.
pub proof fn lemma_principal_line<N: Fn(NetInput) -> i32>(net: N, st: Style, q: Query) -> (r: (
    Seq<i16>,
    Query,
))
    requires
        search_score(net, st, q),
        inside(q),
        0 <= q.x.ply,
        lasting(q.x.s, q.x.ply),
        q.x.depth + 2 * (64 - q.x.ply) < i32::MAX,
    ensures
        leads(net, st, q, r.0, r.1),
        search_score(net, st, r.1),
        r.1.x.ply == q.x.ply + r.0.len(),
        r.1.v == (if r.0.len() % 2 == 0 {
            q.v
        } else {
            -q.v
        }),
        opponent_home(r.1.x.s) || r.1.x.ply >= 63 || (r.1.x.ply > 0 && (r.1.x.above.contains(
            (r.1.x.s.lo, r.1.x.s.hi),
        ) || repeats_history(r.1.x.s))) || r.0.len() >= q.x.depth || stops_short(net, st, r.1),
        closed(r.1.x) ==> closed_score(net, st, r.1.x, r.1.v),
        !closed(r.1.x) ==> stops_short(net, st, r.1),
        r.1.x.depth >= q.x.depth - r.0.len(),
    decreases 64 - q.x.ply,
{
    if lemma_open_or_ends(net, st, q) {
        (Seq::empty(), q)
    } else {
        let (m, k) = lemma_next_exists(net, st, q);
        assert(k.x.ply == q.x.ply + 1 && k.v == -q.v && inside(k) && search_score(net, st, k)
            && q.x.depth - 1 <= k.x.depth <= q.x.depth + 1 && lasting(k.x.s, k.x.ply)) by {
            reveal(next_on_line);
            lemma_legal_playable(q.x.s, m);
            lemma_ace_unmake_restores(q.x.s, m);
        }
        let (rest, end) = lemma_principal_line(net, st, k);
        let line = seq![m] + rest;
        assert(line.drop_first() =~= rest);
        assert(line[0] == m);
        assert(leads(net, st, q, line, end));
        (line, end)
    }
}

/// Whether a line ends at the node.
proof fn lemma_open_or_ends<N: Fn(NetInput) -> i32>(net: N, st: Style, q: Query) -> (ends: bool)
    requires
        search_score(net, st, q),
        inside(q),
    ensures
        ends ==> {
            &&& opponent_home(q.x.s) || q.x.ply >= 63 || (q.x.ply > 0 && (q.x.above.contains(
                (q.x.s.lo, q.x.s.hi),
            ) || repeats_history(q.x.s))) || 0 >= q.x.depth || stops_short(net, st, q)
            &&& closed(q.x) ==> closed_score(net, st, q.x, q.v)
            &&& !closed(q.x) ==> stops_short(net, st, q)
        },
        !ends ==> !closed(q.x) && exists|tt_move: i16, moves: Seq<i16>, got: Seq<Option<int>>|
            #[trigger] run(net, st, q, tt_move, moves, got, scores(net, st)) && some_tried(got),
{
    lemma_score_unfolds(net, st, q);
    reveal(step_score);
    reveal(stops_short);
    let told = scores(net, st);
    if closed(q.x) || by_table(q, told) {
        true
    } else {
        assert(by_moves(net, st, q, told));
        let (tt_move, moves, got) = choose|tt_move: i16, moves: Seq<i16>, got: Seq<Option<int>>|
            #[trigger] run(net, st, q, tt_move, moves, got, told);
        if some_tried(got) {
            false
        } else {
            assert(node_order(st.gen, q.x.s, q.x.depth, q.x.ply, tt_move, moves));
            assert forall|i: int| 0 <= i < got.len() implies (#[trigger] got[i]) is None by {}
            assert forall|i: int| 0 <= i < moves.len() implies #[trigger] seals_off(
                st.gen,
                q.x.s,
                q.x.ply,
                moves[i],
            ) by {
                assert(one_ok(st, q.x, q.alpha, q.beta, tt_move, moves, got, i, told));
                assert(got[i] is None);
                assert(left_out(st.gen, q.x, tt_move, moves[i], got, i));
            }
            true
        }
    }
}

/// Some move was searched.
pub open spec fn some_tried(got: Seq<Option<int>>) -> bool {
    exists|i: int| 0 <= i < got.len() && (#[trigger] got[i]) is Some
}

/// The next node of the line.
proof fn lemma_next_exists<N: Fn(NetInput) -> i32>(net: N, st: Style, q: Query) -> (r: (i16, Query))
    requires
        inside(q),
        !closed(q.x),
        0 <= q.x.ply,
        lasting(q.x.s, q.x.ply),
        q.x.depth <= i32::MAX - 2,
        exists|tt_move: i16, moves: Seq<i16>, got: Seq<Option<int>>| #[trigger]
            run(net, st, q, tt_move, moves, got, scores(net, st)) && some_tried(got),
    ensures
        next_on_line(net, st, q, r.0, r.1),
{
    reveal(next_on_line);
    let (tt_move, moves, got) = choose|tt_move: i16, moves: Seq<i16>, got: Seq<Option<int>>|
        #[trigger] run(net, st, q, tt_move, moves, got, scores(net, st)) && some_tried(got);
    let (j, k) = lemma_best_searched_in_full(net, st, q, tt_move, moves, got);
    lemma_tried_is_legal(st, q.x, tt_move, moves, j);
    (moves[j], k)
}

/// The end of a line is as many plies down as it has moves, and its score is that
/// of the start for the side to move there.
pub proof fn lemma_line_carries_score<N: Fn(NetInput) -> i32>(
    net: N,
    st: Style,
    q: Query,
    line: Seq<i16>,
    end: Query,
)
    requires
        leads(net, st, q, line, end),
    ensures
        end.x.ply == q.x.ply + line.len(),
        end.v == (if line.len() % 2 == 0 {
            q.v
        } else {
            -q.v
        }),
    decreases line.len(),
{
    if line.len() > 0 {
        let rest = line.drop_first();
        let k = choose|k: Query| #[trigger]
            next_on_line(net, st, q, line[0], k) && leads(net, st, k, rest, end);
        assert(k.v == -q.v && k.x.ply == q.x.ply + 1) by {
            reveal(next_on_line);
        }
        lemma_line_carries_score(net, st, k, rest, end);
        assert(rest.len() == line.len() - 1);
    }
}

/// The score of a line that ends with an arrival counts its plies.
pub proof fn lemma_arrival_counts_plies<N: Fn(NetInput) -> i32>(
    net: N,
    st: Style,
    q: Query,
    line: Seq<i16>,
    end: Query,
)
    requires
        leads(net, st, q, line, end),
        closed_score(net, st, end.x, end.v),
        opponent_home(end.x.s),
    ensures
        q.v == (if line.len() % 2 == 0 {
            -(MATE - (q.x.ply + line.len()))
        } else {
            MATE - (q.x.ply + line.len())
        }),
{
    assert(end.v == -(MATE - end.x.ply));
    lemma_line_carries_score(net, st, q, line, end);
}

/// Only an arrival scores beyond what a net can say: such a score inside the
/// window is that of a line to an arrival, or the table had it.
pub proof fn lemma_only_arrivals_are_mates<N: Fn(NetInput) -> i32>(net: N, st: Style, q: Query)
    requires
        search_score(net, st, q),
        inside(q),
        0 <= q.x.ply,
        lasting(q.x.s, q.x.ply),
        q.x.depth + 2 * (64 - q.x.ply) < i32::MAX,
        q.v > NET_LIMIT || q.v < -NET_LIMIT,
    ensures
        exists|line: Seq<i16>, end: Query| #[trigger]
            leads(net, st, q, line, end) && (by_table(end, scores(net, st)) || opponent_home(end.x.s)
                && q.v == (if line.len() % 2 == 0 {
                -(MATE - (q.x.ply + line.len()))
            } else {
                MATE - (q.x.ply + line.len())
            })),
{
    let (line, end) = lemma_principal_line(net, st, q);
    reveal(stops_short);
    if opponent_home(end.x.s) {
        lemma_arrival_counts_plies(net, st, q, line, end);
    }
    assert(leads(net, st, q, line, end));
}

/// Every line of `n` legal moves ends with an arrival, and none before.
pub open spec fn every_line_ends(s: AceState, n: nat) -> bool
    decreases n,
{
    if n == 0 {
        opponent_home(s)
    } else {
        !opponent_home(s) && forall|m: i16| #[trigger]
            legal_in(s, m) ==> every_line_ends(s.after(m), (n - 1) as nat)
    }
}

/// The score of a search of `n` plies or more where every line of `n` plies ends
/// with an arrival: the plies to it, lost or won by whose turn it is then; unless
/// the line ends early, where the table answers, a position repeats, or nothing
/// can be moved.
pub proof fn lemma_certain_arrival<N: Fn(NetInput) -> i32>(net: N, st: Style, q: Query, n: nat)
    requires
        search_score(net, st, q),
        inside(q),
        0 <= q.x.ply,
        lasting(q.x.s, q.x.ply),
        q.x.ply + n < 63,
        n <= q.x.depth,
        q.x.depth + 2 * (64 - q.x.ply) < i32::MAX,
        every_line_ends(q.x.s, n),
    ensures
        exists|line: Seq<i16>, end: Query| #[trigger]
            leads(net, st, q, line, end) && {
                ||| q.v == (if n % 2 == 0 {
                    -(MATE - (q.x.ply + n))
                } else {
                    MATE - (q.x.ply + n)
                })
                ||| line.len() < n && (stops_short(net, st, end) || end.x.above.contains(
                    (end.x.s.lo, end.x.s.hi),
                ) || repeats_history(end.x.s))
            },
{
    let (line, end) = lemma_principal_line(net, st, q);
    lemma_line_ends(net, st, q, line, end, n);
    if line.len() == n {
        lemma_arrival_counts_plies(net, st, q, line, end);
    } else {
        assert(line.len() < n);
        assert(end.x.ply < 63);
        assert(line.len() < q.x.depth);
    }
    assert(leads(net, st, q, line, end));
}

/// No line is longer than the game.
proof fn lemma_line_ends<N: Fn(NetInput) -> i32>(
    net: N,
    st: Style,
    q: Query,
    line: Seq<i16>,
    end: Query,
    n: nat,
)
    requires
        leads(net, st, q, line, end),
        every_line_ends(q.x.s, n),
    ensures
        line.len() <= n,
        line.len() == n ==> opponent_home(end.x.s),
        line.len() < n ==> !opponent_home(end.x.s),
    decreases line.len(),
{
    if line.len() > 0 {
        let k = choose|k: Query| #[trigger]
            next_on_line(net, st, q, line[0], k) && leads(net, st, k, line.drop_first(), end);
        reveal(next_on_line);
        assert(n > 0);
        assert(every_line_ends(q.x.s.after(line[0]), (n - 1) as nat));
        lemma_line_ends(net, st, k, line.drop_first(), end, (n - 1) as nat);
    }
}

/// Every legal pawn move is in a node's list.
pub proof fn lemma_pawn_moves_listed(st: Style, x: Node, tt_move: i16, moves: Seq<i16>, m: i16) -> (i:
    int)
    requires
        x.s.wf(),
        x.ply >= 0,
        x.s.winner_spec() == -1,
        node_order(st.gen, x.s, x.depth, x.ply, tt_move, moves),
        legal_in(x.s, m),
        m < 100,
    ensures
        0 <= i < moves.len(),
        moves[i] == m,
{
    let (bridge, scene, key) = choose|bridge: Option<TiBridge>, scene: WallScene, key: OrderKey|
        #[trigger] ordered_by(st.gen, x.s, x.depth, x.ply, tt_move, bridge, scene, key, moves);
    let list = node_moves(st.gen, bridge, x.s, scene, x.ply);
    let n = list.len() as int;
    lemma_node_moves(st.gen, bridge, x.s, scene, x.ply);
    if !(x.ply == 0 || st.gen.from_board(x.ply)) {
        let cells = x.s.pawn_cells();
        let c = choose|c: int| 0 <= c < cells.len() && cells[c] == m;
        assert(list[c] == m);
    }
    assert(list.contains(m));
    let j = choose|j: int| 0 <= j < list.len() && list[j] == m;
    lemma_sorted(list, key, n);
    lemma_sorted_lists(list, key, n, j);
    choose|i: int| 0 <= i < n && #[trigger] sorted_desc(list, key, n)[i] == list[j]
}

/// A node whose moves were searched and whose side can arrive scores no less than
/// that.
pub proof fn lemma_arrival_is_seen<N: Fn(NetInput) -> i32>(
    net: N,
    st: Style,
    q: Query,
    tt_move: i16,
    moves: Seq<i16>,
    got: Seq<Option<int>>,
    m: i16,
)
    requires
        run(net, st, q, tt_move, moves, got, scores(net, st)),
        some_tried(got),
        q.v < q.beta,
        1 <= q.x.depth <= i32::MAX - 2,
        q.x.s.wf(),
        q.x.ply >= 0,
        q.x.s.winner_spec() == -1,
        arrives(q.x.s, m),
        m < 100,
    ensures
        q.v >= MATE - (q.x.ply + 1),
{
    let told = scores(net, st);
    let i = lemma_pawn_moves_listed(st, q.x, tt_move, moves, m);
    let t = choose|t: int| 0 <= t < got.len() && (#[trigger] got[t]) is Some;
    assert(!(got[t] is None));
    assert(got.len() == moves.len());
    assert(one_ok(st, q.x, q.alpha, q.beta, tt_move, moves, got, i, told));
    assert(got[i] is Some);
    lemma_move_searched(net, st, q.x, q.alpha, q.beta, tt_move, moves, got, i);
    let y = got[i]->0;
    let (d, a, b) = choose|d: int, a: int, b: int| #[trigger]
        search_score(net, st, kid(q.x, m, d, a, b, -y)) && q.x.depth - 4 <= d && d >= 0;
    let k = kid(q.x, m, d, a, b, -y);
    lemma_score_unfolds(net, st, k);
    reveal(step_score);
    assert(closed(k.x));
    assert(y == MATE - (q.x.ply + 1));
    assert(greatest(got, q.v));
}

/// After every legal move, none of which arrives, the opponent can arrive.
pub open spec fn lost_in_two(s: AceState) -> bool {
    &&& s.winner_spec() == -1
    &&& forall|m: i16| #[trigger]
        legal_in(s, m) ==> !opponent_home(s.after(m)) && exists|r: i16|
            r < 100 && #[trigger] arrives(s.after(m), r)
}

/// A search of two plies or more finds a loss in two, however deep it goes and
/// whatever its moves are worth by themselves; unless the position repeats, or
/// the table answers for it or for the position after the move.
pub proof fn lemma_loss_in_two_is_seen<N: Fn(NetInput) -> i32>(net: N, st: Style, q: Query)
    requires
        search_score(net, st, q),
        inside(q),
        0 <= q.x.ply < 61,
        lasting(q.x.s, q.x.ply),
        2 <= q.x.depth <= i32::MAX - 4,
        lost_in_two(q.x.s),
    ensures
        ({
            ||| q.v <= -(MATE - (q.x.ply + 2))
            ||| stops_short(net, st, q)
            ||| q.x.ply > 0 && (q.x.above.contains((q.x.s.lo, q.x.s.hi)) || repeats_history(q.x.s))
            ||| exists|m: i16, k: Query| #[trigger]
                next_on_line(net, st, q, m, k) && (by_table(k, scores(net, st))
                    || k.x.above.contains((k.x.s.lo, k.x.s.hi)) || repeats_history(k.x.s))
        }),
{
    if !lemma_open_or_ends(net, st, q) {
        let (m, k) = lemma_next_exists(net, st, q);
        lemma_reply_sees_arrival(net, st, q, m, k);
    }
}

/// Where the opponent can arrive after every move, the next node of the line is
/// scored so.
proof fn lemma_reply_sees_arrival<N: Fn(NetInput) -> i32>(
    net: N,
    st: Style,
    q: Query,
    m: i16,
    k: Query,
)
    requires
        next_on_line(net, st, q, m, k),
        0 <= q.x.ply < 61,
        lasting(q.x.s, q.x.ply),
        2 <= q.x.depth <= i32::MAX - 4,
        lost_in_two(q.x.s),
    ensures
        q.v <= -(MATE - (q.x.ply + 2)) || by_table(k, scores(net, st)) || k.x.above.contains(
            (k.x.s.lo, k.x.s.hi),
        ) || repeats_history(k.x.s),
{
    reveal(next_on_line);
    let t = q.x.s.after(m);
    lemma_legal_playable(q.x.s, m);
    lemma_ace_unmake_restores(q.x.s, m);
    let r = choose|r: i16| r < 100 && #[trigger] arrives(t, r);
    lemma_score_unfolds(net, st, k);
    reveal(step_score);
    let told = scores(net, st);
    if !closed(k.x) && !by_table(k, told) {
        let (tt_move, moves, got) = choose|
            tt_move: i16,
            moves: Seq<i16>,
            got: Seq<Option<int>>,
        | #[trigger] run(net, st, k, tt_move, moves, got, told);
        assert(t.winner_spec() == -1);
        let i = lemma_pawn_moves_listed(st, k.x, tt_move, moves, r);
        if !some_tried(got) {
            assert(got.len() == moves.len()) by {
                assert forall|e: int| 0 <= e < got.len() implies (#[trigger] got[e]) is None by {}
            }
            assert(one_ok(st, k.x, k.alpha, k.beta, tt_move, moves, got, i, told));
            assert(got[i] is None);
            assert(left_out(st.gen, k.x, tt_move, moves[i], got, i));
        }
        lemma_arrival_is_seen(net, st, k, tt_move, moves, got, r);
    }
}

/// Every finished iteration looks as far ahead as its depth: its score is that of
/// a line of as many legal moves, unless the line ends before with an arrival, a
/// repetition, an answer of the table or a position without moves.
pub proof fn lemma_iteration_looks_ahead<N: Fn(NetInput) -> i32>(
    net: N,
    st: Style,
    s: AceState,
    e: AceDepthLogEntry,
)
    requires
        entry_searched(net, st, s, e),
        lasting(s, 0),
        1 <= e.depth <= MAX_DEPTH,
        some_legal(s),
    ensures
        exists|q: Query, line: Seq<i16>, end: Query| #[trigger]
            leads(net, st, q, line, end) && q.x.s == s && q.x.ply == 0 && q.x.depth == e.depth
                && q.v == e.score && line.len() >= 1 && {
                ||| line.len() >= e.depth
                ||| opponent_home(end.x.s)
                ||| end.x.ply >= 63
                ||| end.x.above.contains((end.x.s.lo, end.x.s.hi)) || repeats_history(end.x.s)
                ||| stops_short(net, st, end)
            },
{
    let (alpha, beta, best) = choose|alpha: int, beta: int, best: i16| #[trigger]
        root_search(net, st, s, e.depth as int, alpha, beta, e.score as int, best) && e.pv@
            == name_of(best);
    let q = Query { x: root_node(s, st.eval, e.depth as int), alpha, beta, pass_ok: true, v:
        e.score as int };
    let (tt_move, moves, got) = choose|tt_move: i16, moves: Seq<i16>, got: Seq<Option<int>>|
        #[trigger] run(net, st, q, tt_move, moves, got, scores(net, st)) && ((forall|i: int|
            0 <= i < got.len() ==> (#[trigger] got[i]) is None) || crate::ace::score::attained(
            moves,
            got,
            q.v,
            best,
        ));
    if some_tried(got) {
        let (m, k) = lemma_next_exists(net, st, q);
        assert(k.x.ply == 1 && k.v == -q.v && inside(k) && search_score(net, st, k) && q.x.depth - 1
            <= k.x.depth <= q.x.depth + 1 && lasting(k.x.s, k.x.ply)) by {
            reveal(next_on_line);
            lemma_legal_playable(q.x.s, m);
            lemma_ace_unmake_restores(q.x.s, m);
        }
        let (rest, end) = lemma_principal_line(net, st, k);
        let line = seq![m] + rest;
        assert(line.drop_first() =~= rest);
        assert(line[0] == m);
        assert(leads(net, st, q, line, end));
        assert(end.x.ply == 1 + rest.len());
    } else {
        assert(got.len() == moves.len()) by {
            assert forall|i: int| 0 <= i < got.len() implies (#[trigger] got[i]) is None by {}
        }
        lemma_legal_listed_at_root(st, q.x, tt_move, moves);
        assert(one_ok(st, q.x, q.alpha, q.beta, tt_move, moves, got, 0, scores(net, st)));
        assert(got[0] is None);
        assert(left_out(st.gen, q.x, tt_move, moves[0], got, 0));
    }
}

/// The side to move has a pawn move and the game is not over.
pub open spec fn some_legal(s: AceState) -> bool {
    s.winner_spec() == -1 && s.pawn_cells().len() > 0
}

proof fn lemma_legal_listed_at_root(st: Style, x: Node, tt_move: i16, moves: Seq<i16>)
    requires
        x.s.wf(),
        x.ply == 0,
        some_legal(x.s),
        node_order(st.gen, x.s, x.depth, x.ply, tt_move, moves),
    ensures
        moves.len() > 0,
{
    let m = x.s.pawn_cells()[0];
    lemma_pawn_cells(x.s.h, x.s.v, x.s.pawn(x.s.turn), x.s.pawn(1 - x.s.turn));
    assert(x.s.pawn_cells().contains(m));
    assert(legal_in(x.s, m));
    let i = lemma_pawn_moves_listed(st, x, tt_move, moves, m);
}

/// An iteration of two plies or more sees a loss in two: where every legal move
/// lets the opponent arrive, it scores so, unless the line repeats a position or
/// the table answered for one.
pub proof fn lemma_iteration_sees_loss_in_two<N: Fn(NetInput) -> i32>(
    net: N,
    st: Style,
    s: AceState,
    e: AceDepthLogEntry,
)
    requires
        entry_searched(net, st, s, e),
        lasting(s, 0),
        2 <= e.depth <= MAX_DEPTH,
        lost_in_two(s),
        some_legal(s),
    ensures
        e.score <= -(MATE - 2) || exists|q: Query, m: i16, k: Query| #[trigger]
            next_on_line(net, st, q, m, k) && q.x.s == s && (by_table(k, scores(net, st))
                || k.x.above.contains((k.x.s.lo, k.x.s.hi)) || repeats_history(k.x.s)),
{
    let (alpha, beta, best) = choose|alpha: int, beta: int, best: i16| #[trigger]
        root_search(net, st, s, e.depth as int, alpha, beta, e.score as int, best) && e.pv@
            == name_of(best);
    let q = Query { x: root_node(s, st.eval, e.depth as int), alpha, beta, pass_ok: true, v:
        e.score as int };
    let told = scores(net, st);
    let (tt_move, moves, got) = choose|tt_move: i16, moves: Seq<i16>, got: Seq<Option<int>>|
        #[trigger] run(net, st, q, tt_move, moves, got, told) && ((forall|i: int|
            0 <= i < got.len() ==> (#[trigger] got[i]) is None) || crate::ace::score::attained(
            moves,
            got,
            q.v,
            best,
        ));
    lemma_legal_listed_at_root(st, q.x, tt_move, moves);
    if !some_tried(got) {
        assert(got.len() == moves.len()) by {
            assert forall|i: int| 0 <= i < got.len() implies (#[trigger] got[i]) is None by {}
        }
        assert(one_ok(st, q.x, q.alpha, q.beta, tt_move, moves, got, 0, told));
        assert(got[0] is None);
        assert(left_out(st.gen, q.x, tt_move, moves[0], got, 0));
    }
    let (m, k) = lemma_next_exists(net, st, q);
    lemma_reply_sees_arrival(net, st, q, m, k);
}

/// A position that occurred on the line or in the game is a draw, whichever side is
/// asked and however deep, and so is a line that gets too long; an arrival before
/// counts for more.
pub proof fn lemma_repetition_is_a_draw<N: Fn(NetInput) -> i32>(net: N, st: Style, q: Query)
    requires
        search_score(net, st, q),
        q.x.s.wf(),
        q.x.s.winner_spec() == -1,
        q.x.ply >= 63 || q.x.ply > 0 && (q.x.above.contains((q.x.s.lo, q.x.s.hi))
            || repeats_history(q.x.s)),
    ensures
        q.v == 0,
{
    lemma_score_unfolds(net, st, q);
    reveal(step_score);
}

/// A score that neither the table nor a move backs reaches beta, and rests on a
/// value that does: by itself, far enough above it for the plies that are left,
/// or with the opponent, to move twice in a row, at most as good as beta is bad.
pub proof fn lemma_cut_without_a_move_reaches_beta<N: Fn(NetInput) -> i32>(
    net: N,
    st: Style,
    q: Query,
)
    requires
        search_score(net, st, q),
        q.x.s.wf(),
        q.x.s.winner_spec() == -1,
        0 <= q.x.ply < 63,
        !q.x.above.contains((q.x.s.lo, q.x.s.hi)),
        !repeats_history(q.x.s),
        q.x.depth > 0,
        !by_table(q, scores(net, st)),
        !by_moves(net, st, q, scores(net, st)),
    ensures
        q.v >= q.beta,
        exists|e: int| #[trigger] eval_ok(net, st.eval, q.x.s, q.x.depth, e) && e >= q.beta,
        q.v > q.beta ==> q.x.depth <= 4 && q.v >= q.beta + 90 * q.x.depth,
        q.v == q.beta ==> q.pass_ok && q.x.depth >= 3 && exists|y: Query| #[trigger]
            search_score(net, st, y) && y.x.s.turn == 1 - q.x.s.turn && y.x.s.p0 == q.x.s.p0
                && y.x.s.p1 == q.x.s.p1 && y.x.s.h == q.x.s.h && y.x.s.v == q.x.s.v && y.x.s.wl0
                == q.x.s.wl0 && y.x.s.wl1 == q.x.s.wl1 && y.x.ply == q.x.ply + 1 && y.x.depth
                == q.x.depth - 3 && !y.pass_ok && y.v <= -q.beta,
{
    lemma_score_unfolds(net, st, q);
    reveal(step_score);
    if by_margin(net, st, q) {
    } else {
        let told = scores(net, st);
        assert(by_pass(net, st, q, told));
        let y = choose|y: int| #[trigger]
            told(pass_query(q, y)) && q.beta <= -y < MATE - 200;
        assert(search_score(net, st, pass_query(q, y)));
    }
}

} // verus!
