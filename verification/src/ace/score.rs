//! What the score of a search means.
//!
//! A node gets its score because it is closed (the game is over, the line is at
//! its end, the position repeats, or no depth is left), because the table knows
//! a score of a search of the same keys that is deep enough, because the
//! position is so good or a pass still so good that beta is held, or because
//! its moves were searched in order. The scores below it have the same meaning,
//! so the meaning goes down to where the depths of the plan end.

use vstd::prelude::*;

use crate::ace::backing::{opponent_home, Node};
use crate::ace::bridge::TiBridge;
use crate::ace::eval::{eval_ok, EvalMode, NetInput, MATE};
use crate::ace::game::{grid_player, move_orientation, wall_slot, AceState};
use crate::ace::movelist::{node_moves, scene_right, GenMode, WallScene};
use crate::ace::node::{
    cutoff_spec, entry_ok, node_relative, repeats_history, root_relative, Cutoff,
};
use crate::ace::order::{plan_spec, sorted_desc, ChildPlan, OrderKey};
use crate::ace::search::SearchConfig;
use crate::ace::table::{Bound, Record, Table, TableEntry};
use crate::path::distance::is_field;
use crate::path::graph::{goal_squares, wall_steps};

verus! {

/// What the meaning of a score depends on in a configuration.
pub struct Style {
    pub eval: EvalMode,
    pub gen: GenMode,
    pub eme: bool,
}

pub open spec fn style_of(c: SearchConfig) -> Style {
    Style { eval: c.eval, gen: c.gen, eme: c.eme }
}

/// A score of a node within a window. Where `pass_ok`, a pass may hold beta.
#[verifier::ext_equal]
pub struct Query {
    pub x: Node,
    pub alpha: int,
    pub beta: int,
    pub pass_ok: bool,
    pub v: int,
}

/// The node after a move, with a depth left.
pub open spec fn child_node(x: Node, m: i16, depth: int) -> Node {
    Node {
        s: x.s.after(m),
        above: x.above.push((x.s.lo, x.s.hi)),
        mode: x.mode,
        depth,
        ply: x.ply + 1,
    }
}

/// The node after a pass, three plies less deep.
pub open spec fn pass_node(x: Node) -> Node {
    Node {
        s: x.s.passed(),
        above: x.above.push((x.s.lo, x.s.hi)),
        mode: x.mode,
        depth: x.depth - 3,
        ply: x.ply + 1,
    }
}

/// The node is scored without a look at its moves or the table.
pub open spec fn closed(x: Node) -> bool {
    ||| opponent_home(x.s)
    ||| x.ply >= 63
    ||| x.ply > 0 && (x.above.contains((x.s.lo, x.s.hi)) || repeats_history(x.s))
    ||| x.depth <= 0
}

/// The score of such a node.
pub open spec fn closed_score<N: Fn(NetInput) -> i32>(net: N, st: Style, x: Node, v: int) -> bool {
    if opponent_home(x.s) {
        v == -(MATE - x.ply)
    } else if x.ply >= 63 {
        v == 0
    } else if x.ply > 0 && (x.above.contains((x.s.lo, x.s.hi)) || repeats_history(x.s)) {
        v == 0
    } else {
        eval_ok(net, st.eval, x.s, x.depth, v)
    }
}

/// The score of a search may be kept with the bound: it is below the window's
/// top, above its bottom, or both.
pub open spec fn stands(bound: Bound, src: Query) -> bool {
    match bound {
        Bound::Exact => src.v < src.beta && (src.alpha < src.v || src.x.ply == 0),
        Bound::Lower => src.alpha < src.v || src.x.ply == 0,
        Bound::Upper => src.v < src.beta,
    }
}

/// A score that was kept with the bound answers the question: its node has the
/// same keys and no less depth, and the bound decides the window.
pub open spec fn table_source(q: Query, src: Query, bound: Bound) -> bool {
    &&& src.x.s.lo == q.x.s.lo
    &&& src.x.s.hi == q.x.s.hi
    &&& src.x.depth >= q.x.depth
    &&& stands(bound, src)
    &&& q.v == root_relative(node_relative(src.v, src.x.ply), q.x.ply)
    &&& match bound {
        Bound::Exact => true,
        Bound::Lower => q.v >= q.beta,
        Bound::Upper => q.v <= q.alpha,
    }
}

/// Below the root: the table has it from a search.
pub open spec fn by_table(q: Query, below: spec_fn(Query) -> bool) -> bool {
    q.x.ply > 0 && exists|src: Query, bound: Bound| #[trigger]
        table_source(q, src, bound) && below(src)
}

/// The value is above beta by a margin that grows with the depth.
pub open spec fn by_margin<N: Fn(NetInput) -> i32>(net: N, st: Style, q: Query) -> bool {
    &&& q.x.depth <= 4
    &&& -2000 < q.beta < 2000
    &&& q.v - 90 * q.x.depth >= q.beta
    &&& eval_ok(net, st.eval, q.x.s, q.x.depth, q.v)
}

/// The question after a pass.
pub open spec fn pass_query(q: Query, y: int) -> Query {
    Query { x: pass_node(q.x), alpha: -q.beta, beta: -q.beta + 1, pass_ok: false, v: y }
}

/// The value reaches beta, and a pass holds it.
pub open spec fn by_pass<N: Fn(NetInput) -> i32>(
    net: N,
    st: Style,
    q: Query,
    below: spec_fn(Query) -> bool,
) -> bool {
    &&& q.pass_ok
    &&& q.x.depth >= 3
    &&& q.x.ply > 0
    &&& q.v == q.beta
    &&& exists|e: int| #[trigger] eval_ok(net, st.eval, q.x.s, q.x.depth, e) && e >= q.beta
    &&& exists|y: int| #[trigger] below(pass_query(q, y)) && q.beta <= -y < MATE - 200
}

/// The list is the node's moves in the order to try them.
pub open spec fn ordered_by(
    gen: GenMode,
    s: AceState,
    depth: int,
    ply: int,
    tt_move: i16,
    bridge: Option<TiBridge>,
    scene: WallScene,
    key: OrderKey,
    moves: Seq<i16>,
) -> bool {
    let list = node_moves(gen, bridge, s, scene, ply);
    &&& gen.served_by(bridge)
    &&& bridge matches Some(b) ==> b.in_step(s, ply) && scene_right(
        scene,
        gen.rule(ply),
        b.board,
        depth,
    )
    &&& scene.tt_move == tt_move
    &&& key.tt_move == tt_move
    &&& is_field(key.dist_me, wall_steps(s.h, s.v), goal_squares(grid_player(s.turn)))
    &&& moves == sorted_desc(list, key, list.len() as int)
}

/// The same for some killers, answers and history.
pub open spec fn node_order(
    gen: GenMode,
    s: AceState,
    depth: int,
    ply: int,
    tt_move: i16,
    moves: Seq<i16>,
) -> bool {
    exists|bridge: Option<TiBridge>, scene: WallScene, key: OrderKey| #[trigger]
        ordered_by(gen, s, depth, ply, tt_move, bridge, scene, key, moves)
}

/// The question of a child.
pub open spec fn kid(x: Node, m: i16, depth: int, alpha: int, beta: int, v: int) -> Query {
    Query { x: child_node(x, m, depth), alpha, beta, pass_ok: true, v }
}

/// `y` is the score of the move, by the plan, where `a` has to be beaten.
#[verifier::opaque]
pub open spec fn move_score(
    x: Node,
    m: i16,
    plan: ChildPlan,
    a: int,
    beta: int,
    y: int,
    below: spec_fn(Query) -> bool,
) -> bool {
    match plan {
        ChildPlan::Extended { depth } => below(kid(x, m, depth as int, -beta, -a, -y)),
        ChildPlan::Full { depth } => below(kid(x, m, depth as int, -beta, -a, -y)),
        ChildPlan::Reduced { depth, full } => exists|u: int| #[trigger]
            below(kid(x, m, depth as int, -a - 1, -a, u)) && if -u > a {
                below(kid(x, m, full as int, -beta, -a, -y))
            } else {
                y == -u
            },
        ChildPlan::Scouted { depth } => exists|u: int| #[trigger]
            below(kid(x, m, depth as int, -a - 1, -a, u)) && if a < -u < beta {
                below(kid(x, m, depth as int, -beta, -a, -y))
            } else {
                y == -u
            },
    }
}

/// A wall below the root that was not tested yet closes a way off.
pub open spec fn seals_off(gen: GenMode, s: AceState, ply: int, m: i16) -> bool {
    m >= 100 && ply > 0 && !gen.from_board(ply) && !s.wall_legal_spec(
        wall_slot(m),
        move_orientation(m),
    )
}

/// The move is left out: it closes a way off, or it is a late wall at the
/// frontier and an earlier move is not about to lose.
pub open spec fn left_out(
    gen: GenMode,
    x: Node,
    tt_move: i16,
    m: i16,
    got: Seq<Option<int>>,
    i: int,
) -> bool {
    ||| seals_off(gen, x.s, x.ply, m)
    ||| {
        &&& x.depth <= 2
        &&& x.ply > 0
        &&& i >= 10
        &&& m >= 100
        &&& m != tt_move
        &&& exists|j: int| 0 <= j < i && ((#[trigger] got[j]) matches Some(b) && b > -MATE + 200)
    }
}

/// What a move has to beat: alpha, or the score of an earlier move.
pub open spec fn floor_ok(alpha: int, got: Seq<Option<int>>, i: int, a: int) -> bool {
    a == alpha || exists|j: int| 0 <= j < i && #[trigger] got[j] == Some(a)
}

/// The `i`-th move has its score by the plan, or is left out.
pub open spec fn one_ok(
    st: Style,
    x: Node,
    alpha: int,
    beta: int,
    tt_move: i16,
    moves: Seq<i16>,
    got: Seq<Option<int>>,
    i: int,
    below: spec_fn(Query) -> bool,
) -> bool {
    match got[i] {
        None => left_out(st.gen, x, tt_move, moves[i], got, i),
        Some(y) => !seals_off(st.gen, x.s, x.ply, moves[i]) && exists|a: int| #[trigger]
            floor_ok(alpha, got, i, a) && move_score(
                x,
                moves[i],
                plan_spec(i, x.depth, moves[i], tt_move, st.eme),
                a,
                beta,
                y,
                below,
            ),
    }
}

/// The first moves of the list were tried so.
pub open spec fn run_ok(
    st: Style,
    x: Node,
    alpha: int,
    beta: int,
    tt_move: i16,
    moves: Seq<i16>,
    got: Seq<Option<int>>,
    below: spec_fn(Query) -> bool,
) -> bool {
    &&& got.len() <= moves.len()
    &&& forall|i: int|
        0 <= i < got.len() ==> #[trigger] one_ok(
            st,
            x,
            alpha,
            beta,
            tt_move,
            moves,
            got,
            i,
            below,
        )
}

/// `v` is the greatest score.
pub open spec fn greatest(got: Seq<Option<int>>, v: int) -> bool {
    &&& exists|i: int| 0 <= i < got.len() && #[trigger] got[i] == Some(v)
    &&& forall|i: int| 0 <= i < got.len() ==> ((#[trigger] got[i]) matches Some(y) ==> y <= v)
}

/// The moves were tried until one reached beta, or all of them; the greatest
/// score is the node's, and its value where nothing was searched.
pub open spec fn run_ends<N: Fn(NetInput) -> i32>(
    net: N,
    st: Style,
    q: Query,
    moves: Seq<i16>,
    got: Seq<Option<int>>,
) -> bool {
    if forall|i: int| 0 <= i < got.len() ==> (#[trigger] got[i]) is None {
        got.len() == moves.len() && eval_ok(net, st.eval, q.x.s, q.x.depth, q.v)
    } else {
        greatest(got, q.v) && (got.len() == moves.len() || (q.v >= q.beta && got.last() == Some(
            q.v,
        )))
    }
}

/// The moves were searched with these scores.
pub open spec fn run<N: Fn(NetInput) -> i32>(
    net: N,
    st: Style,
    q: Query,
    tt_move: i16,
    moves: Seq<i16>,
    got: Seq<Option<int>>,
    below: spec_fn(Query) -> bool,
) -> bool {
    &&& node_order(st.gen, q.x.s, q.x.depth, q.x.ply, tt_move, moves)
    &&& run_ok(st, q.x, q.alpha, q.beta, tt_move, moves, got, below)
    &&& run_ends(net, st, q, moves, got)
}

/// The moves were searched.
pub open spec fn by_moves<N: Fn(NetInput) -> i32>(
    net: N,
    st: Style,
    q: Query,
    below: spec_fn(Query) -> bool,
) -> bool {
    exists|tt_move: i16, moves: Seq<i16>, got: Seq<Option<int>>| #[trigger]
        run(net, st, q, tt_move, moves, got, below)
}

/// The score of a node that is not closed, by the scores below it.
pub open spec fn open_score<N: Fn(NetInput) -> i32>(
    net: N,
    st: Style,
    q: Query,
    below: spec_fn(Query) -> bool,
) -> bool {
    ||| by_table(q, below)
    ||| by_margin(net, st, q)
    ||| by_pass(net, st, q, below)
    ||| by_moves(net, st, q, below)
}

/// One step of the meaning.
#[verifier::opaque]
pub open spec fn step_score<N: Fn(NetInput) -> i32>(
    net: N,
    st: Style,
    q: Query,
    below: spec_fn(Query) -> bool,
) -> bool {
    if closed(q.x) {
        closed_score(net, st, q.x, q.v)
    } else {
        open_score(net, st, q, below)
    }
}

/// Scores that `n` steps explain.
pub open spec fn explained<N: Fn(NetInput) -> i32>(net: N, st: Style, n: nat) -> spec_fn(
    Query,
) -> bool
    decreases n,
{
    if n == 0 {
        |q: Query| false
    } else {
        let below = explained(net, st, (n - 1) as nat);
        |q: Query| step_score(net, st, q, below)
    }
}

/// `q.v` is a score of a search of the node within the window: it is explained
/// by finitely many steps.
#[verifier::opaque]
pub open spec fn search_score<N: Fn(NetInput) -> i32>(net: N, st: Style, q: Query) -> bool {
    exists|n: nat| #[trigger] explained(net, st, n)(q)
}

/// All scores of searches.
pub open spec fn scores<N: Fn(NetInput) -> i32>(net: N, st: Style) -> spec_fn(Query) -> bool {
    |q: Query| search_score(net, st, q)
}

/// More scores below explain more.
proof fn lemma_move_score_more(
    x: Node,
    m: i16,
    plan: ChildPlan,
    a: int,
    beta: int,
    y: int,
    p: spec_fn(Query) -> bool,
    r: spec_fn(Query) -> bool,
)
    requires
        move_score(x, m, plan, a, beta, y, p),
        forall|q: Query| #[trigger] p(q) ==> r(q),
    ensures
        move_score(x, m, plan, a, beta, y, r),
{
    reveal(move_score);
    match plan {
        ChildPlan::Extended { depth } => {
            assert(p(kid(x, m, depth as int, -beta, -a, -y)));
        },
        ChildPlan::Full { depth } => {
            assert(p(kid(x, m, depth as int, -beta, -a, -y)));
        },
        ChildPlan::Reduced { depth, full } => {
            let u = choose|u: int| #[trigger]
                p(kid(x, m, depth as int, -a - 1, -a, u)) && if -u > a {
                    p(kid(x, m, full as int, -beta, -a, -y))
                } else {
                    y == -u
                };
            assert(r(kid(x, m, depth as int, -a - 1, -a, u)));
        },
        ChildPlan::Scouted { depth } => {
            let u = choose|u: int| #[trigger]
                p(kid(x, m, depth as int, -a - 1, -a, u)) && if a < -u < beta {
                    p(kid(x, m, depth as int, -beta, -a, -y))
                } else {
                    y == -u
                };
            assert(r(kid(x, m, depth as int, -a - 1, -a, u)));
        },
    }
}

proof fn lemma_one_more(
    st: Style,
    x: Node,
    alpha: int,
    beta: int,
    tt_move: i16,
    moves: Seq<i16>,
    got: Seq<Option<int>>,
    i: int,
    p: spec_fn(Query) -> bool,
    r: spec_fn(Query) -> bool,
)
    requires
        one_ok(st, x, alpha, beta, tt_move, moves, got, i, p),
        forall|q: Query| #[trigger] p(q) ==> r(q),
    ensures
        one_ok(st, x, alpha, beta, tt_move, moves, got, i, r),
{
    if let Some(y) = got[i] {
        let plan = plan_spec(i, x.depth, moves[i], tt_move, st.eme);
        let a = choose|a: int| #[trigger]
            floor_ok(alpha, got, i, a) && move_score(x, moves[i], plan, a, beta, y, p);
        lemma_move_score_more(x, moves[i], plan, a, beta, y, p, r);
    }
}

proof fn lemma_step_more<N: Fn(NetInput) -> i32>(
    net: N,
    st: Style,
    q: Query,
    p: spec_fn(Query) -> bool,
    r: spec_fn(Query) -> bool,
)
    requires
        step_score(net, st, q, p),
        forall|k: Query| #[trigger] p(k) ==> r(k),
    ensures
        step_score(net, st, q, r),
{
    reveal(step_score);
    if !closed(q.x) {
        if by_table(q, p) {
            let (src, bound) = choose|src: Query, bound: Bound| #[trigger]
                table_source(q, src, bound) && p(src);
            assert(table_source(q, src, bound) && r(src));
            assert(by_table(q, r));
        } else if by_margin(net, st, q) {
        } else if by_pass(net, st, q, p) {
            let y = choose|y: int| #[trigger] p(pass_query(q, y)) && q.beta <= -y < MATE - 200;
            assert(r(pass_query(q, y)));
            assert(by_pass(net, st, q, r));
        } else {
            let (tt_move, moves, got) = choose|tt_move: i16, moves: Seq<i16>, got: Seq<Option<int>>|
                #[trigger] run(net, st, q, tt_move, moves, got, p);
            assert forall|i: int| 0 <= i < got.len() implies #[trigger] one_ok(
                st,
                q.x,
                q.alpha,
                q.beta,
                tt_move,
                moves,
                got,
                i,
                r,
            ) by {
                assert(one_ok(st, q.x, q.alpha, q.beta, tt_move, moves, got, i, p));
                lemma_one_more(st, q.x, q.alpha, q.beta, tt_move, moves, got, i, p, r);
            }
            assert(run(net, st, q, tt_move, moves, got, r));
        }
    }
}

/// What few steps explain, more do.
proof fn lemma_explained_more<N: Fn(NetInput) -> i32>(net: N, st: Style, n: nat, m: nat)
    requires
        n <= m,
    ensures
        forall|q: Query| #[trigger] explained(net, st, n)(q) ==> explained(net, st, m)(q),
    decreases n,
{
    if n > 0 {
        let p = explained(net, st, (n - 1) as nat);
        let r = explained(net, st, (m - 1) as nat);
        lemma_explained_more(net, st, (n - 1) as nat, (m - 1) as nat);
        assert forall|q: Query| #[trigger] explained(net, st, n)(q) implies explained(net, st, m)(
            q,
        ) by {
            lemma_step_more(net, st, q, p, r);
        }
    }
}

/// A score below is explained by so many steps.
proof fn lemma_some_steps<N: Fn(NetInput) -> i32>(net: N, st: Style, q: Query) -> (n: nat)
    requires
        scores(net, st)(q),
    ensures
        explained(net, st, n)(q),
{
    reveal(search_score);
    choose|n: nat| #[trigger] explained(net, st, n)(q)
}

/// So is the score of a move.
proof fn lemma_move_steps<N: Fn(NetInput) -> i32>(
    net: N,
    st: Style,
    x: Node,
    m: i16,
    plan: ChildPlan,
    a: int,
    beta: int,
    y: int,
) -> (n: nat)
    requires
        move_score(x, m, plan, a, beta, y, scores(net, st)),
    ensures
        move_score(x, m, plan, a, beta, y, explained(net, st, n)),
{
    reveal(move_score);
    let below = scores(net, st);
    match plan {
        ChildPlan::Extended { depth } => lemma_some_steps(
            net,
            st,
            kid(x, m, depth as int, -beta, -a, -y),
        ),
        ChildPlan::Full { depth } => lemma_some_steps(
            net,
            st,
            kid(x, m, depth as int, -beta, -a, -y),
        ),
        ChildPlan::Reduced { depth, full } => {
            let u = choose|u: int| #[trigger]
                below(kid(x, m, depth as int, -a - 1, -a, u)) && if -u > a {
                    below(kid(x, m, full as int, -beta, -a, -y))
                } else {
                    y == -u
                };
            let first = kid(x, m, depth as int, -a - 1, -a, u);
            let n1 = lemma_some_steps(net, st, first);
            if -u > a {
                let n2 = lemma_some_steps(net, st, kid(x, m, full as int, -beta, -a, -y));
                lemma_explained_more(net, st, n1, n1 + n2);
                lemma_explained_more(net, st, n2, n1 + n2);
                assert(explained(net, st, n1 + n2)(first));
                n1 + n2
            } else {
                assert(explained(net, st, n1)(first));
                n1
            }
        },
        ChildPlan::Scouted { depth } => {
            let u = choose|u: int| #[trigger]
                below(kid(x, m, depth as int, -a - 1, -a, u)) && if a < -u < beta {
                    below(kid(x, m, depth as int, -beta, -a, -y))
                } else {
                    y == -u
                };
            let first = kid(x, m, depth as int, -a - 1, -a, u);
            let n1 = lemma_some_steps(net, st, first);
            if a < -u < beta {
                let n2 = lemma_some_steps(net, st, kid(x, m, depth as int, -beta, -a, -y));
                lemma_explained_more(net, st, n1, n1 + n2);
                lemma_explained_more(net, st, n2, n1 + n2);
                assert(explained(net, st, n1 + n2)(first));
                n1 + n2
            } else {
                assert(explained(net, st, n1)(first));
                n1
            }
        },
    }
}

/// And the first `k` moves together.
proof fn lemma_run_steps<N: Fn(NetInput) -> i32>(
    net: N,
    st: Style,
    x: Node,
    alpha: int,
    beta: int,
    tt_move: i16,
    moves: Seq<i16>,
    got: Seq<Option<int>>,
    k: int,
) -> (n: nat)
    requires
        0 <= k <= got.len(),
        run_ok(st, x, alpha, beta, tt_move, moves, got, scores(net, st)),
    ensures
        forall|i: int|
            0 <= i < k ==> #[trigger] one_ok(
                st,
                x,
                alpha,
                beta,
                tt_move,
                moves,
                got,
                i,
                explained(net, st, n),
            ),
    decreases k,
{
    if k == 0 {
        0
    } else {
        let n1 = lemma_run_steps(net, st, x, alpha, beta, tt_move, moves, got, k - 1);
        let below = scores(net, st);
        assert(one_ok(st, x, alpha, beta, tt_move, moves, got, k - 1, below));
        let n2: nat = match got[k - 1] {
            None => 0,
            Some(y) => {
                let m = moves[k - 1];
                let plan = plan_spec(k - 1, x.depth, m, tt_move, st.eme);
                let a = choose|a: int| #[trigger]
                    floor_ok(alpha, got, k - 1, a) && move_score(x, m, plan, a, beta, y, below);
                let n2 = lemma_move_steps(net, st, x, m, plan, a, beta, y);
                assert(floor_ok(alpha, got, k - 1, a));
                n2
            },
        };
        assert(one_ok(st, x, alpha, beta, tt_move, moves, got, k - 1, explained(net, st, n2)));
        let n = n1 + n2;
        lemma_explained_more(net, st, n1, n);
        lemma_explained_more(net, st, n2, n);
        assert forall|i: int| 0 <= i < k implies #[trigger] one_ok(
            st,
            x,
            alpha,
            beta,
            tt_move,
            moves,
            got,
            i,
            explained(net, st, n),
        ) by {
            let few = if i < k - 1 {
                n1
            } else {
                n2
            };
            assert(one_ok(st, x, alpha, beta, tt_move, moves, got, i, explained(net, st, few)));
            lemma_one_more(
                st,
                x,
                alpha,
                beta,
                tt_move,
                moves,
                got,
                i,
                explained(net, st, few),
                explained(net, st, n),
            );
        }
        n
    }
}

/// A node whose score follows in one step from scores below has such a score.
proof fn lemma_step_explained<N: Fn(NetInput) -> i32>(net: N, st: Style, q: Query) -> (n: nat)
    requires
        step_score(net, st, q, scores(net, st)),
    ensures
        step_score(net, st, q, explained(net, st, n)),
{
    let below = scores(net, st);
    reveal(step_score);
    if closed(q.x) {
        0
    } else if by_table(q, below) {
        let (src, bound) = choose|src: Query, bound: Bound| #[trigger]
            table_source(q, src, bound) && below(src);
        let n = lemma_some_steps(net, st, src);
        assert(table_source(q, src, bound) && explained(net, st, n)(src));
        assert(by_table(q, explained(net, st, n)));
        n
    } else if by_margin(net, st, q) {
        0
    } else if by_pass(net, st, q, below) {
        let y = choose|y: int| #[trigger] below(pass_query(q, y)) && q.beta <= -y < MATE - 200;
        let n = lemma_some_steps(net, st, pass_query(q, y));
        assert(explained(net, st, n)(pass_query(q, y)));
        assert(by_pass(net, st, q, explained(net, st, n)));
        n
    } else {
        let (tt_move, moves, got) = choose|tt_move: i16, moves: Seq<i16>, got: Seq<Option<int>>|
            #[trigger] run(net, st, q, tt_move, moves, got, below);
        let n = lemma_run_steps(
            net,
            st,
            q.x,
            q.alpha,
            q.beta,
            tt_move,
            moves,
            got,
            got.len() as int,
        );
        assert(run(net, st, q, tt_move, moves, got, explained(net, st, n)));
        n
    }
}

/// A score of a search is one that follows in one step from scores of searches.
pub proof fn lemma_score_unfolds<N: Fn(NetInput) -> i32>(net: N, st: Style, q: Query)
    ensures
        search_score(net, st, q) == step_score(net, st, q, scores(net, st)),
{
    reveal(search_score);
    let below = scores(net, st);
    if search_score(net, st, q) {
        let n = choose|n: nat| #[trigger] explained(net, st, n)(q);
        let few = explained(net, st, (n - 1) as nat);
        assert forall|k: Query| #[trigger] few(k) implies below(k) by {
            assert(explained(net, st, (n - 1) as nat)(k));
        }
        lemma_step_more(net, st, q, few, below);
    }
    if step_score(net, st, q, below) {
        let n = lemma_step_explained(net, st, q);
        assert(explained(net, st, n + 1)(q));
    }
}

/// A closed node has its score.
pub proof fn lemma_closed_score<N: Fn(NetInput) -> i32>(net: N, st: Style, q: Query)
    requires
        closed(q.x),
        closed_score(net, st, q.x, q.v),
    ensures
        search_score(net, st, q),
{
    reveal(step_score);
    lemma_score_unfolds(net, st, q);
}

/// A node that is not closed has a score that the scores below give it.
pub proof fn lemma_open_score<N: Fn(NetInput) -> i32>(net: N, st: Style, q: Query)
    requires
        !closed(q.x),
        open_score(net, st, q, scores(net, st)),
    ensures
        search_score(net, st, q),
{
    reveal(step_score);
    lemma_score_unfolds(net, st, q);
}

/// A table entry keeps a score of a search with its keys and its depth, unless
/// it is tainted.
pub open spec fn entry_vouched<N: Fn(NetInput) -> i32>(
    net: N,
    st: Style,
    lo: u32,
    hi: u32,
    e: TableEntry,
) -> bool {
    !e.tainted ==> exists|src: Query| #[trigger]
        search_score(net, st, src) && src.x.s.lo == lo && src.x.s.hi == hi && src.x.depth == e.depth
            && e.score == node_relative(src.v, src.x.ply) && stands(e.bound, src)
}

/// So do all entries of a table.
#[verifier::opaque]
pub open spec fn table_vouched<N: Fn(NetInput) -> i32>(net: N, st: Style, t: Table) -> bool {
    forall|lo: u32, hi: u32|
        (#[trigger] t.find(lo, hi)) is Some ==> entry_vouched(net, st, lo, hi, t.find(lo, hi)->0)
}

/// A table that answers alike is vouched for alike; one that answers nothing
/// is.
pub proof fn lemma_vouched_same<N: Fn(NetInput) -> i32>(net: N, st: Style, t: Table, u: Table)
    requires
        table_vouched(net, st, t),
        forall|lo: u32, hi: u32| (#[trigger] u.find(lo, hi)) is Some ==> u.find(lo, hi) == t.find(
            lo,
            hi,
        ),
    ensures
        table_vouched(net, st, u),
{
    reveal(table_vouched);
    assert forall|lo: u32, hi: u32| (#[trigger] u.find(lo, hi)) is Some implies entry_vouched(
        net,
        st,
        lo,
        hi,
        u.find(lo, hi)->0,
    ) by {
        assert(t.find(lo, hi) is Some);
    }
}

pub proof fn lemma_empty_vouched<N: Fn(NetInput) -> i32>(net: N, st: Style, t: Table)
    requires
        forall|lo: u32, hi: u32| (#[trigger] t.find(lo, hi)) is None,
    ensures
        table_vouched(net, st, t),
{
    reveal(table_vouched);
}

/// The table took a record, where it may replace what is there.
pub open spec fn stored(
    before: Table,
    after: Table,
    lo: u32,
    hi: u32,
    r: Record,
    ignore_generation: bool,
) -> bool {
    let e = before.entries[before.slot(lo)];
    if before.replaces(e, r.depth, ignore_generation) {
        &&& after.find(lo, hi) == Some(before.recorded(e, lo, hi, r))
        &&& !before.grows_on(lo) ==> after.entries@ == before.with_record(lo, hi, r)
        &&& before.grows_on(lo) ==> forall|l: u32, h: u32|
            !(l == lo && h == hi) ==> #[trigger] after.find(l, h) == before.find(l, h)
    } else {
        after == before
    }
}

/// Storing a score of a search keeps the table vouched for.
pub proof fn lemma_store_vouched<N: Fn(NetInput) -> i32>(
    net: N,
    st: Style,
    before: Table,
    after: Table,
    lo: u32,
    hi: u32,
    r: Record,
    ignore_generation: bool,
)
    requires
        before.wf(),
        table_vouched(net, st, before),
        entry_vouched(net, st, lo, hi, before.recorded(before.entries[before.slot(lo)], lo, hi, r)),
        stored(before, after, lo, hi, r, ignore_generation),
    ensures
        table_vouched(net, st, after),
{
    reveal(table_vouched);
    let e = before.entries[before.slot(lo)];
    if before.replaces(e, r.depth, ignore_generation) {
        crate::util::pow::lemma_two_pow_small(before.bits as nat);
        assert forall|l: u32, h: u32| (#[trigger] after.find(l, h)) is Some implies entry_vouched(
            net,
            st,
            l,
            h,
            after.find(l, h)->0,
        ) by {
            if !(l == lo && h == hi) {
                if !before.grows_on(lo) {
                    assert(after.entries@.len() == before.entries@.len());
                    assert(after.slot(l) == before.slot(l));
                    if before.slot(l) != before.slot(lo) {
                        assert(after.entries@[before.slot(l)] == before.entries@[before.slot(l)]);
                    } else {
                        assert(after.entries@[before.slot(l)] == before.recorded(e, lo, hi, r));
                    }
                }
                assert(after.find(l, h) == before.find(l, h));
            }
        }
    }
}

/// What the table decides is a score of a search.
pub proof fn lemma_table_score<N: Fn(NetInput) -> i32>(net: N, st: Style, t: Table, q: Query)
    requires
        table_vouched(net, st, t),
        !closed(q.x),
        t.find(q.x.s.lo, q.x.s.hi) matches Some(e) && cutoff_spec(
            e,
            q.x.depth,
            q.x.ply,
            q.alpha,
            q.beta,
        ) == Cutoff::Score(q.v as i32),
        -300_000 <= q.v <= 300_000,
        forall|lo: u32, hi: u32| (#[trigger] t.find(lo, hi)) is Some ==> entry_ok(
            t.find(lo, hi)->0,
        ),
        0 <= q.x.ply < 64,
    ensures
        search_score(net, st, q),
{
    reveal(table_vouched);
    let e = t.find(q.x.s.lo, q.x.s.hi)->0;
    assert(entry_vouched(net, st, q.x.s.lo, q.x.s.hi, e));
    let src = choose|src: Query| #[trigger]
        search_score(net, st, src) && src.x.s.lo == q.x.s.lo && src.x.s.hi == q.x.s.hi
            && src.x.depth == e.depth && e.score == node_relative(src.v, src.x.ply) && stands(
            e.bound,
            src,
        );
    assert(entry_ok(e));
    assert(q.v == root_relative(e.score as int, q.x.ply));
    assert(table_source(q, src, e.bound) && scores(net, st)(src));
    assert(by_table(q, scores(net, st)));
    lemma_open_score(net, st, q);
}

/// Only the first moves of a list matter to their order.
pub proof fn lemma_sorted_head(s: Seq<i16>, k: OrderKey, n: int, m: int)
    requires
        0 <= m <= n <= s.len(),
    ensures
        sorted_desc(s.subrange(0, n), k, m) == sorted_desc(s, k, m),
    decreases m,
{
    if m > 0 {
        lemma_sorted_head(s, k, n, m - 1);
    }
}

/// A trial of one more move leaves the earlier ones as they are.
proof fn lemma_one_prefix(
    st: Style,
    x: Node,
    alpha: int,
    beta: int,
    tt_move: i16,
    moves: Seq<i16>,
    got: Seq<Option<int>>,
    y: Option<int>,
    i: int,
    below: spec_fn(Query) -> bool,
)
    requires
        0 <= i < got.len(),
        one_ok(st, x, alpha, beta, tt_move, moves, got, i, below),
    ensures
        one_ok(st, x, alpha, beta, tt_move, moves, got.push(y), i, below),
{
    let more = got.push(y);
    assert forall|j: int| 0 <= j <= i implies #[trigger] more[j] == got[j] by {}
    match got[i] {
        None => {
            if !seals_off(st.gen, x.s, x.ply, moves[i]) {
                let j = choose|j: int|
                    0 <= j < i && ((#[trigger] got[j]) matches Some(b) && b > -MATE + 200);
                assert(more[j] == got[j]);
            }
        },
        Some(v) => {
            let plan = plan_spec(i, x.depth, moves[i], tt_move, st.eme);
            let a = choose|a: int| #[trigger]
                floor_ok(alpha, got, i, a) && move_score(x, moves[i], plan, a, beta, v, below);
            if a != alpha {
                let j = choose|j: int| 0 <= j < i && #[trigger] got[j] == Some(a);
                assert(more[j] == Some(a));
            }
            assert(floor_ok(alpha, more, i, a));
        },
    }
}

/// One more move was tried.
pub proof fn lemma_run_more(
    st: Style,
    x: Node,
    alpha: int,
    beta: int,
    tt_move: i16,
    moves: Seq<i16>,
    got: Seq<Option<int>>,
    y: Option<int>,
    below: spec_fn(Query) -> bool,
)
    requires
        run_ok(st, x, alpha, beta, tt_move, moves, got, below),
        got.len() < moves.len(),
        one_ok(st, x, alpha, beta, tt_move, moves, got.push(y), got.len() as int, below),
    ensures
        run_ok(st, x, alpha, beta, tt_move, moves, got.push(y), below),
{
    assert forall|i: int| 0 <= i < got.push(y).len() implies #[trigger] one_ok(
        st,
        x,
        alpha,
        beta,
        tt_move,
        moves,
        got.push(y),
        i,
        below,
    ) by {
        if i < got.len() {
            assert(one_ok(st, x, alpha, beta, tt_move, moves, got, i, below));
            lemma_one_prefix(st, x, alpha, beta, tt_move, moves, got, y, i, below);
        }
    }
}

/// The score of a move from the scores of its searches: the first one, and the
/// second where the plan asks for it.
pub proof fn lemma_move_scored<N: Fn(NetInput) -> i32>(
    net: N,
    st: Style,
    x: Node,
    m: i16,
    plan: ChildPlan,
    a: int,
    beta: int,
    u: int,
    y: int,
)
    requires
        match plan {
            ChildPlan::Extended { depth } => search_score(
                net,
                st,
                kid(x, m, depth as int, -beta, -a, -y),
            ),
            ChildPlan::Full { depth } => search_score(
                net,
                st,
                kid(x, m, depth as int, -beta, -a, -y),
            ),
            ChildPlan::Reduced { depth, full } => {
                &&& search_score(net, st, kid(x, m, depth as int, -a - 1, -a, u))
                &&& if -u > a {
                    search_score(net, st, kid(x, m, full as int, -beta, -a, -y))
                } else {
                    y == -u
                }
            },
            ChildPlan::Scouted { depth } => {
                &&& search_score(net, st, kid(x, m, depth as int, -a - 1, -a, u))
                &&& if a < -u < beta {
                    search_score(net, st, kid(x, m, depth as int, -beta, -a, -y))
                } else {
                    y == -u
                }
            },
        },
    ensures
        move_score(x, m, plan, a, beta, y, scores(net, st)),
{
    reveal(move_score);
    let below = scores(net, st);
    match plan {
        ChildPlan::Reduced { depth, .. } => {
            assert(below(kid(x, m, depth as int, -a - 1, -a, u)));
        },
        ChildPlan::Scouted { depth } => {
            assert(below(kid(x, m, depth as int, -a - 1, -a, u)));
        },
        _ => {},
    }
}

/// The moves were searched, and `best` attains the score, unless nothing was
/// searched.
pub open spec fn best_by_search<N: Fn(NetInput) -> i32>(
    net: N,
    st: Style,
    q: Query,
    best: i16,
) -> bool {
    exists|tt_move: i16, moves: Seq<i16>, got: Seq<Option<int>>| #[trigger]
        run(net, st, q, tt_move, moves, got, scores(net, st)) && ((forall|i: int|
            0 <= i < got.len() ==> (#[trigger] got[i]) is None) || attained(moves, got, q.v, best))
}

/// The move has the score.
pub open spec fn attained(moves: Seq<i16>, got: Seq<Option<int>>, v: int, best: i16) -> bool {
    exists|j: int| 0 <= j < got.len() && #[trigger] got[j] == Some(v) && moves[j] == best
}

} // verus!
