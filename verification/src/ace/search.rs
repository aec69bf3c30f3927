//! The search: iterative deepening over a principal-variation alpha-beta with
//! a table, null moves, graduated reductions and extensions.

use vstd::prelude::*;

use crate::ace::backing::{
    arrives, counts, crowded, held, lemma_held_more, opponent_home, replies, reply_ok, score_ok,
    seen, tops, Node,
};
use crate::ace::bridge::{
    hands_fit, lemma_can_pop, lemma_playable_on_board, lemma_pop_restores, lemma_push_in_step,
    pushed, same_bridge, TiBridge,
};
use crate::ace::certify::legal_in;
use crate::ace::certmemo::CertMemo;
use crate::ace::convert::{is_ace_move, keys_match, lemma_after_keeps_keys, lemma_passed};
use crate::ace::eval::{
    by_knowledge, eval_ok, evaluate, tame, EvalMode, NetInput, MATE, NET_LIMIT,
};
use crate::ace::fields::DistFields;
use crate::ace::game::{
    is_pawn_move, lemma_ace_unmake_restores, move_orientation, wall_slot, AceGame, AceState,
    ACE_NO_MOVE,
};
use crate::ace::movelist::{gen_moves, node_moves, scene_right, GenMode, WallScene};
use crate::ace::node::{
    bound_fits, cutoff_spec, entry_ok, fence, fence_spec, frontier_skips, lemma_store_keeps_scores,
    node_relative, repeats_game_history, repeats_history, scores_ok, table_cutoff, to_table,
    Cutoff, Line, Memory, DEPTH_LIMIT, MAX_DEPTH,
};
use crate::ace::order::{
    child_plan, key_of, lemma_sorted, lemma_sorted_lists, order_moves, plan_spec, sorted_desc, ChildPlan, OrderHints,
};
use crate::ace::racecache::RaceCache;
use crate::ace::score::{
    attained, best_by_search, by_margin, by_moves, by_pass, child_node, closed, entry_vouched,
    floor_ok, greatest, left_out, lemma_closed_score, lemma_move_scored, lemma_open_score,
    lemma_run_more, lemma_sorted_head, lemma_store_vouched, lemma_table_score, move_score,
    node_order, one_ok, ordered_by, pass_node, pass_query, run, run_ok, scores, search_score,
    seals_off, stands, stored, style_of, table_vouched, Query,
};
use crate::ace::table::{Bound, Record, Table};
use crate::position::board::Board;
use crate::util::clock::{whole_ms_spec, Deadline};

verus! {

/// Beyond every score.
pub const INF: i32 = 200_000;

/// The time is up.
pub struct TimeUp;

/// A finished iteration.
#[derive(Debug, Clone)]
pub struct AceDepthLogEntry {
    pub depth: i32,
    pub score: i32,
    pub nodes: u64,
    pub elapsed_ms: u64,
    pub marginal_nodes: u64,
    pub pv: String,
}

/// What a search reports on the way.
pub struct Progress {
    pub label: String,
    pub depth_log: Vec<AceDepthLogEntry>,
    pub search_depth: i32,
    pub nodes: u64,
    pub root_score: i32,
    pub white_dist: u8,
    pub black_dist: u8,
    pub elapsed_ms: u64,
}

/// Reports go out at multiples of this many nodes.
pub const STREAM_EMIT_NODES: u64 = 65_536;

/// Least time between two reports that nothing forces.
pub const STREAM_EMIT_MIN_INTERVAL_MS: u64 = 100;

/// State of the reports.
pub struct Stream {
    pub log: bool,
    pub label: String,
    pub start: Deadline,
    pub root_score: i32,
    pub search_depth: i32,
    pub depth_log: Vec<AceDepthLogEntry>,
    pub last_emit_nodes: u64,
    pub last_emit_ms: u64,
    pub last_best: i16,
}

/// The same iterations once more.
pub fn copy_log(log: &Vec<AceDepthLogEntry>) -> (r: Vec<AceDepthLogEntry>)
    ensures
        r@ == log@,
{
    let mut r: Vec<AceDepthLogEntry> = Vec::new();
    let mut i: usize = 0;
    while i < log.len()
        invariant
            i <= log@.len(),
            r@.len() == i,
            forall|j: int| 0 <= j < i ==> #[trigger] r@[j] == log@[j],
        decreases log@.len() - i,
    {
        let e: &AceDepthLogEntry = &log[i];
        r.push(
            AceDepthLogEntry {
                depth: e.depth,
                score: e.score,
                nodes: e.nodes,
                elapsed_ms: e.elapsed_ms,
                marginal_nodes: e.marginal_nodes,
                pv: e.pv.clone(),
            },
        );
        i += 1;
    }
    assert(r@ =~= log@);
    r
}

/// Anything can be reported.
pub open spec fn listens<R: Fn(Progress)>(report: R) -> bool {
    forall|p: Progress| #[trigger] call_requires(report, (p,))
}

/// A report that nothing forces is due: at a multiple of the node interval that
/// was not reported yet, and not too soon after the last.
pub open spec fn report_due(nodes: int, last_nodes: int, elapsed: int, last_ms: int) -> bool {
    &&& nodes != 0
    &&& nodes != last_nodes
    &&& nodes % 65_536 == 0
    &&& elapsed - last_ms >= 100
}

/// Whether a report that nothing forces is due.
pub fn is_report_due(nodes: u64, last_nodes: u64, elapsed_ms: u64, last_ms: u64) -> (r: bool)
    ensures
        r == report_due(nodes as int, last_nodes as int, elapsed_ms as int, last_ms as int),
{
    nodes != 0 && nodes != last_nodes && nodes % STREAM_EMIT_NODES == 0
        && elapsed_ms.saturating_sub(last_ms) >= STREAM_EMIT_MIN_INTERVAL_MS
}

impl Stream {
    pub(crate) fn new() -> (r: Self)
        ensures
            !r.log,
    {
        Stream {
            log: false,
            label: String::new(),
            start: Deadline::new(0),
            root_score: 0,
            search_depth: 0,
            depth_log: Vec::new(),
            last_emit_nodes: 0,
            last_emit_ms: 0,
            last_best: 0,
        }
    }

    /// Nothing reported yet.
    pub(crate) fn restart(&mut self, start: &Deadline, log: bool, label: &str)
        ensures
            final(self).log == log,
            final(self).label@ == label@,
            final(self).depth_log@.len() == 0,
            final(self).last_best == ACE_NO_MOVE,
    {
        self.log = log;
        self.label = label.to_owned();
        self.start = *start;
        self.root_score = 0;
        self.search_depth = 0;
        self.depth_log = Vec::new();
        self.last_emit_nodes = 0;
        self.last_emit_ms = 0;
        self.last_best = ACE_NO_MOVE;
    }

    /// What a search says of itself at a position: its label, its iterations, the
    /// depth and the score of the one at hand, and the distances of both players.
    pub fn progress(&self, g: &AceGame, nodes: u64) -> (p: Progress)
        requires
            g.wf(),
        ensures
            p.label@ == self.label@,
            p.depth_log@ == self.depth_log@,
            p.search_depth == self.search_depth,
            p.nodes == nodes,
            p.root_score == self.root_score,
            p.white_dist == g@.goal_dist(0),
            p.black_dist == g@.goal_dist(1),
            self.start.reading() matches Some(t) ==> p.elapsed_ms == whole_ms_spec(t),
    {
        let mut white: [u8; 81] = [255u8; 81];
        let mut black: [u8; 81] = [255u8; 81];
        g.compute_dist(0, &mut white);
        g.compute_dist(1, &mut black);
        Progress {
            label: self.label.clone(),
            depth_log: copy_log(&self.depth_log),
            search_depth: self.search_depth,
            nodes,
            root_score: self.root_score,
            white_dist: white[g.pawn[0]],
            black_dist: black[g.pawn[1]],
            elapsed_ms: self.start.elapsed_ms(),
        }
    }

    /// Reports the state of the search where that is forced or due.
    pub(crate) fn emit<R: Fn(Progress)>(&mut self, g: &AceGame, nodes: u64, force: bool, report: &R)
        requires
            g.wf(),
            listens(*report),
        ensures
            *final(self) == (Stream {
                last_emit_ms: final(self).last_emit_ms,
                last_emit_nodes: final(self).last_emit_nodes,
                ..*old(self)
            }),
            !old(self).log ==> *final(self) == *old(self),
            old(self).log && force ==> final(self).last_emit_nodes == nodes,
            old(self).start.reading() matches Some(t) ==> old(self).log ==> {
                let due = force || report_due(
                    nodes as int,
                    old(self).last_emit_nodes as int,
                    whole_ms_spec(t) as int,
                    old(self).last_emit_ms as int,
                );
                &&& final(self).last_emit_nodes == (if due {
                    nodes
                } else {
                    old(self).last_emit_nodes
                })
                &&& final(self).last_emit_ms == (if due {
                    whole_ms_spec(t)
                } else {
                    old(self).last_emit_ms
                })
            },
    {
        if !self.log {
            return ;
        }
        let elapsed_ms: u64 = self.start.elapsed_ms();
        if !force && !is_report_due(nodes, self.last_emit_nodes, elapsed_ms, self.last_emit_ms) {
            return ;
        }
        self.last_emit_ms = elapsed_ms;
        self.last_emit_nodes = nodes;
        report(self.progress(g, nodes));
    }
}

/// How a search works.
#[derive(Clone, Copy)]
pub struct SearchConfig {
    pub gen: GenMode,
    pub eval: EvalMode,
    /// Early walls are searched deeper.
    pub eme: bool,
    /// An iteration that time cut short may still change the move.
    pub use_partial_iter: bool,
    /// No generations, no ageing, no resumed iterations.
    pub pure_mode: bool,
    pub is_pondering: bool,
}

/// Counters.
#[derive(Clone, Copy)]
pub struct SearchStats {
    pub refused_cuts: u64,
    pub tainted_stores: u64,
    pub fenced_lower: u64,
    pub fenced_upper: u64,
    pub line_repetitions: u64,
    pub game_repetitions: u64,
}

/// The best moves at the root.
#[derive(Clone, Copy)]
pub struct Root {
    pub best: i16,
    pub score: i32,
    /// Best pawn move, -1 for none.
    pub pawn_best: i16,
    pub pawn_score: i32,
}

pub struct AceSearch {
    pub g: AceGame,
    pub tt: Table,
    pub fields: DistFields,
    pub line: Line,
    pub memory: Memory,
    pub bridge: Option<TiBridge>,
    pub config: SearchConfig,
    pub race: RaceCache,
    pub certs: CertMemo,
    pub stats: SearchStats,
    pub nodes: u64,
    pub rp_demotions: u64,
    pub rp_root_solves: u64,
    pub root: Root,
    pub deadline: Deadline,
    /// The clock was read past the deadline.
    pub expired: bool,
    pub stream: Stream,
}

/// Both bridges are absent, or hold the same.
pub open spec fn bridges_match(a: Option<TiBridge>, b: Option<TiBridge>) -> bool {
    match (a, b) {
        (Some(x), Some(y)) => same_bridge(x, y),
        (None, None) => true,
        _ => false,
    }
}

/// What a node leaves as it was: the game, the configuration, the clock, the
/// generation of the table, the bridge, and
/// the arrays and keys of the plies above `ply`.
#[verifier::opaque]
pub open spec fn carried(a: AceSearch, b: AceSearch, ply: int) -> bool {
    &&& b.g@ == a.g@
    &&& b.config == a.config
    &&& b.deadline == a.deadline
    &&& b.tt.generation == a.tt.generation
    &&& bridges_match(a.bridge, b.bridge)
    &&& forall|i: int| 0 <= i < ply ==> #[trigger] b.fields.d0[i] == a.fields.d0[i]
    &&& forall|i: int| 0 <= i < ply ==> #[trigger] b.fields.d1[i] == a.fields.d1[i]
    &&& forall|i: int| 0 <= i < ply ==> #[trigger] b.line.path_lo[i] == a.line.path_lo[i]
    &&& forall|i: int| 0 <= i < ply ==> #[trigger] b.line.path_hi[i] == a.line.path_hi[i]
}

impl AceSearch {
    /// A node can be searched at `ply`.
    #[verifier::opaque]
    pub open spec fn ready(self, ply: int) -> bool {
        &&& 0 <= ply < 64
        &&& self.g.wf()
        &&& keys_match(self.g@)
        &&& hands_fit(self.g@)
        &&& self.g@.hist.len() < 0x7FFF_0000 + ply
        &&& self.fields.fits(self.g@)
        &&& self.fields.idx0 <= ply
        &&& self.fields.idx1 <= ply
        &&& self.tt.wf()
        &&& scores_ok(self.tt)
        &&& self.memory.wf()
        &&& self.config.gen.served_by(self.bridge)
        &&& self.bridge matches Some(b) ==> b.in_step(self.g@, ply)
        &&& self.race.wf()
        &&& self.certs.wf()
        &&& self.expired ==> !self.deadline.on_time()
    }

    /// The same with the distances of the position at hand.
    pub open spec fn at_node(self, ply: int) -> bool {
        &&& self.ready(ply)
        &&& self.fields.valid_for(self.g@)
        &&& self.fields.stamp == self.g@.stamp
    }

    /// The time is up: the clock is read every 1024 nodes.
    fn time_up<R: Fn(Progress)>(&mut self, report: &R) -> (up: bool)
        requires
            old(self).g.wf(),
            listens(*report),
        ensures
            *final(self) == (AceSearch {
                stream: final(self).stream,
                expired: final(self).expired,
                ..*old(self)
            }),
            up ==> final(self).expired,
            !up ==> final(self).expired == old(self).expired,
            old(self).nodes % 1024 != 0 ==> !up,
            up ==> !old(self).deadline.on_time(),
    {
        if self.nodes % 1024 == 0 {
            if self.deadline.passed() {
                self.expired = true;
                self.stream.emit(&self.g, self.nodes, true, report);
                return true;
            }
            self.stream.emit(&self.g, self.nodes, false, report);
        }
        false
    }

    /// The value of the position.
    pub(crate) fn value<N: Fn(NetInput) -> i32>(&mut self, depth: i32, ply: usize, net: &N) -> (r: i32)
        requires
            old(self).at_node(ply as int),
            tame(*net),
        ensures
            final(self).at_node(ply as int),
            carried(*old(self), *final(self), 64),
            final(self).fields == old(self).fields,
            final(self).line == old(self).line,
            final(self).root == old(self).root,
            final(self).tt == old(self).tt,
            final(self).expired == old(self).expired,
            -NET_LIMIT <= r <= NET_LIMIT,
            eval_ok(*net, old(self).config.eval, old(self).g@, depth as int, r as int),
            by_knowledge(
                *net,
                old(self).config.eval,
                old(self).race,
                old(self).certs,
                old(self).deadline,
                old(self).g@,
                depth as int,
                r as int,
            ),
    {
        reveal(AceSearch::ready);
        reveal(carried);
        let mode: EvalMode = self.config.eval;
        evaluate(
            &mut self.g,
            &self.fields,
            &mut self.race,
            &mut self.certs,
            &self.bridge,
            mode,
            &self.deadline,
            depth,
            net,
        )
    }

    /// Plays a move on the game and the bridge.
    fn play(&mut self, m: i16, ply: usize)
        requires
            old(self).at_node(ply as int),
            ply < 63,
            old(self).g@.playable(m),
            is_ace_move(m),
        ensures
            final(self).ready(ply + 1),
            final(self).g@ == old(self).g@.after(m),
            *final(self) == (AceSearch {
                g: final(self).g,
                bridge: final(self).bridge,
                ..*old(self)
            }),
            match (old(self).bridge, final(self).bridge) {
                (Some(x), Some(y)) => pushed(x, m, y),
                (None, None) => true,
                _ => false,
            },
    {
        reveal(AceSearch::ready);
        let ghost s = self.g@;
        proof {
            lemma_ace_unmake_restores(s, m);
            lemma_after_keeps_keys(s, m);
        }
        self.g.make_move(m);
        match &mut self.bridge {
            Some(b) => {
                proof {
                    lemma_playable_on_board(*b, s, ply as int, m);
                }
                let ghost b0 = *b;
                b.push(m);
                proof {
                    lemma_push_in_step(b0, s, ply as int, m, *b);
                }
            },
            None => {},
        }
        proof {
            lemma_fields_follow(self.fields, s, m);
        }
    }
}

/// After a move the distances still fit.
pub(crate) proof fn lemma_fields_follow(f: DistFields, s: AceState, m: i16)
    requires
        f.valid_for(s),
        f.stamp == s.stamp,
        s.wf(),
        s.playable(m),
        s.after(m).undoable(),
        s.after(m).before() == s,
    ensures
        f.fits(s.after(m)),
{
}

/// What is left of a played move: the bridges before and after.
pub open spec fn bridge_pushed(a: Option<TiBridge>, m: i16, b: Option<TiBridge>) -> bool {
    match (a, b) {
        (Some(x), Some(y)) => pushed(x, m, y),
        (None, None) => true,
        _ => false,
    }
}

/// The bridges before and after a pass.
pub open spec fn bridge_passed(a: Option<TiBridge>, b: Option<TiBridge>) -> bool {
    match (a, b) {
        (Some(x), Some(y)) => y.board == (Board {
            side_to_move: x.board.side_to_move.opposite_spec(),
            ..x.board
        }) && y.undo_stack@ == x.undo_stack@ && y.bfs == x.bfs,
        (None, None) => true,
        _ => false,
    }
}

/// `now` is the search after `m` was played from `before` and everything
/// below it was searched.
#[verifier::opaque]
spec fn below(before: AceSearch, m: i16, now: AceSearch, ply: int) -> bool {
    &&& now.ready(ply + 1)
    &&& now.g@ == before.g@.after(m)
    &&& now.config == before.config
    &&& now.deadline == before.deadline
    &&& now.tt.generation == before.tt.generation
    &&& bridge_pushed(before.bridge, m, now.bridge)
    &&& forall|i: int| 0 <= i < ply + 1 ==> #[trigger] now.fields.d0[i] == before.fields.d0[i]
    &&& forall|i: int| 0 <= i < ply + 1 ==> #[trigger] now.fields.d1[i] == before.fields.d1[i]
    &&& forall|i: int| 0 <= i < ply + 1 ==> #[trigger] now.line.path_lo[i] == before.line.path_lo[i]
    &&& forall|i: int| 0 <= i < ply + 1 ==> #[trigger] now.line.path_hi[i] == before.line.path_hi[i]
}

/// Right after the move.
proof fn lemma_below_start(before: AceSearch, m: i16, now: AceSearch, ply: int)
    requires
        now.ready(ply + 1),
        now.g@ == before.g@.after(m),
        bridge_pushed(before.bridge, m, now.bridge),
        now == (AceSearch { g: now.g, bridge: now.bridge, ..before }),
    ensures
        below(before, m, now, ply),
{
    reveal(below);
}

/// The configuration below is the same.
proof fn lemma_below_style(before: AceSearch, m: i16, now: AceSearch, ply: int)
    requires
        below(before, m, now, ply),
    ensures
        now.config == before.config,
{
    reveal(below);
}

/// After one more search below.
proof fn lemma_below_step(before: AceSearch, m: i16, a: AceSearch, b: AceSearch, ply: int)
    requires
        below(before, m, a, ply),
        b.ready(ply + 1),
        carried(a, b, ply + 1),
    ensures
        below(before, m, b, ply),
{
    reveal(below);
    reveal(carried);
}

/// Leaving things as they were, twice.
pub(crate) proof fn lemma_carried(a: AceSearch, b: AceSearch, c: AceSearch, ply: int, q: int)
    requires
        carried(a, b, ply),
        carried(b, c, q),
        ply <= q,
    ensures
        carried(a, c, ply),
{
    reveal(carried);
}

pub(crate) proof fn lemma_carried_less(a: AceSearch, b: AceSearch, ply: int, q: int)
    requires
        carried(a, b, q),
        ply <= q,
    ensures
        carried(a, b, ply),
{
    reveal(carried);
}

pub(crate) proof fn lemma_carried_self(a: AceSearch, ply: int)
    ensures
        carried(a, a, ply),
{
    reveal(carried);
}

impl AceSearch {
    /// Takes the move back and returns to the node's distances.
    fn unwind_move(
        &mut self,
        ply: usize,
        nd0: usize,
        nd1: usize,
        nst: i32,
        Ghost(m): Ghost<i16>,
        Ghost(before): Ghost<AceSearch>,
    )
        requires
            before.at_node(ply as int),
            ply < 63,
            before.g@.playable(m),
            is_ace_move(m),
            below(before, m, *old(self), ply as int),
            nd0 == before.fields.idx0,
            nd1 == before.fields.idx1,
            nst == before.fields.stamp,
        ensures
            final(self).at_node(ply as int),
            carried(before, *final(self), ply + 1),
            final(self).root == old(self).root,
            final(self).expired == old(self).expired,
            final(self).line == old(self).line,
            final(self).tt == old(self).tt,
    {
        reveal(AceSearch::ready);
        reveal(carried);
        reveal(below);
        let ghost s = before.g@;
        proof {
            lemma_ace_unmake_restores(s, m);
        }
        self.g.unmake_move();
        match &mut self.bridge {
            Some(b) => {
                let ghost b1 = *b;
                proof {
                    lemma_can_pop(before.bridge->0, s, ply as int, m, *b);
                }
                b.pop();
                proof {
                    lemma_pop_restores(before.bridge->0, s, ply as int, m, b1, *b);
                }
            },
            None => {},
        }
        self.fields.idx0 = nd0;
        self.fields.idx1 = nd1;
        self.fields.stamp = nst;
        proof {
            assert(self.fields.d0[nd0 as int] == before.fields.d0[nd0 as int]);
            assert(self.fields.d1[nd1 as int] == before.fields.d1[nd1 as int]);
        }
    }
}

/// What the root has recorded is legal.
pub open spec fn root_ok(r: Root, s: AceState) -> bool {
    &&& r.best == ACE_NO_MOVE || legal_in(s, r.best)
    &&& -MATE <= r.score <= MATE
    &&& r.pawn_best == -1 || (legal_in(s, r.pawn_best) && is_pawn_move(r.pawn_best))
    &&& r.pawn_best != -1 ==> -MATE <= r.pawn_score <= MATE
}

/// Where the score of a node is settled before any move is tried, it is `v`:
/// the opponent has arrived, the line is at its end, the position repeats, no
/// depth is left, or the table decides.
pub open spec fn settled_score<N: Fn(NetInput) -> i32>(
    a: AceSearch,
    net: N,
    depth: int,
    alpha: int,
    beta: int,
    ply: int,
    v: int,
) -> bool {
    let s = a.g@;
    if opponent_home(s) {
        v == -(MATE - ply)
    } else if ply >= 63 {
        v == 0
    } else if ply > 0 && (a.line.repeats(ply, s.lo, s.hi) || repeats_history(s)) {
        v == 0
    } else if depth <= 0 {
        eval_ok(net, a.config.eval, s, depth, v)
    } else {
        a.tt.find(s.lo, s.hi) matches Some(e) ==> (cutoff_spec(
            e,
            depth,
            ply,
            alpha,
            beta,
        ) matches Cutoff::Score(x) ==> v == x)
    }
}

/// The table has an entry that ends the node.
pub open spec fn table_decides(a: AceSearch, depth: int, alpha: int, beta: int, ply: int) -> bool {
    match a.tt.find(a.g@.lo, a.g@.hi) {
        Some(e) => cutoff_spec(e, depth, ply, alpha, beta) is Score,
        None => false,
    }
}

/// The node is settled before its moves are looked at.
pub open spec fn settled(a: AceSearch, depth: int, alpha: int, beta: int, ply: int) -> bool {
    ||| opponent_home(a.g@)
    ||| ply >= 63
    ||| ply > 0 && (a.line.repeats(ply, a.g@.lo, a.g@.hi) || repeats_history(a.g@))
    ||| depth <= 0
    ||| table_decides(a, depth, alpha, beta, ply)
}

/// The node that a search is at.
pub open spec fn node_at(a: AceSearch, depth: int, ply: int) -> Node {
    Node {
        s: a.g@,
        above: Seq::new(ply as nat, |k: int| (a.line.path_lo[k], a.line.path_hi[k])),
        mode: a.config.eval,
        depth,
        ply,
    }
}

/// The keys of the position are on the line.
pub open spec fn on_path(a: AceSearch, ply: int) -> bool {
    a.line.path_lo[ply] == a.g@.lo && a.line.path_hi[ply] == a.g@.hi
}

/// The root has recorded a move that scores `v`, unless there is none.
pub open spec fn root_backed<N: Fn(NetInput) -> i32>(net: N, x: Node, r: Root, v: int) -> bool {
    (exists|m: i16| #[trigger] counts(x, m)) ==> r.score == v && legal_in(x.s, r.best) && (replies(
        net,
        x,
        r.best,
        -v,
    ) || crowded(x.s))
}

/// The node ends without moves and without the table.
pub open spec fn ends(a: AceSearch, depth: int, ply: int) -> bool {
    ||| opponent_home(a.g@)
    ||| ply >= 63
    ||| ply > 0 && (a.line.repeats(ply, a.g@.lo, a.g@.hi) || repeats_history(a.g@))
    ||| depth <= 0
}

/// A score of the position after a move, or one that the window alone explains:
/// beyond the mate scores, and outside of the window on that side.
pub open spec fn visit_ok<N: Fn(NetInput) -> i32>(
    net: N,
    x: Node,
    m: i16,
    leaf: bool,
    alpha: int,
    beta: int,
    v: int,
) -> bool {
    let t = x.s.after(m);
    let far = MATE - (x.ply + 1);
    &&& -INF <= v <= INF
    &&& v <= alpha || v <= far
    &&& v >= beta || v >= -far
    &&& reply_ok(net, x.mode, t, x.ply + 1, leaf, seen(x, t), -v) || {
        &&& !leaf
        &&& !seen(x, t)
        &&& x.ply + 1 < 63
        &&& !opponent_home(t)
        &&& v >= far && v <= alpha || v < -far && v >= beta
    }
}

/// What is left as it was is the same node.
proof fn lemma_same_node(a: AceSearch, b: AceSearch, depth: int, ply: int, q: int)
    requires
        carried(a, b, q),
        0 <= ply <= q,
    ensures
        node_at(a, depth, ply) == node_at(b, depth, ply),
        ply < q && on_path(a, ply) ==> on_path(b, ply),
{
    reveal(carried);
    assert(node_at(a, depth, ply).above =~= node_at(b, depth, ply).above);
}

/// Every entry of the search's table is a score of a search with the net.
pub open spec fn vouched<N: Fn(NetInput) -> i32>(net: N, a: AceSearch) -> bool {
    table_vouched(net, style_of(a.config), a.tt)
}

/// `v` as the answer to what a node is asked.
pub open spec fn asked(
    a: AceSearch,
    depth: int,
    alpha: int,
    beta: int,
    ply: int,
    pass_ok: bool,
    v: int,
) -> Query {
    Query { x: node_at(a, depth, ply), alpha, beta, pass_ok, v }
}

/// The node below a move is the child.
proof fn lemma_child_node(
    before: AceSearch,
    m: i16,
    a: AceSearch,
    ply: int,
    depth: int,
    d: int,
)
    requires
        0 <= ply < 63,
        below(before, m, a, ply),
        on_path(before, ply),
    ensures
        node_at(a, d, ply + 1) == child_node(node_at(before, depth, ply), m, d),
        style_of(a.config) == style_of(before.config),
{
    reveal(below);
    assert(node_at(a, d, ply + 1).above =~= child_node(node_at(before, depth, ply), m, d).above);
}

/// The node below a pass.
proof fn lemma_pass_node(before: AceSearch, mid: AceSearch, ply: int, depth: int)
    requires
        0 <= ply < 63,
        mid.g@ == before.g@.passed(),
        mid == (AceSearch { g: mid.g, bridge: mid.bridge, ..before }),
        on_path(before, ply),
    ensures
        node_at(mid, depth - 3, ply + 1) == pass_node(node_at(before, depth, ply)),
{
    assert(node_at(mid, depth - 3, ply + 1).above =~= pass_node(
        node_at(before, depth, ply),
    ).above);
}

/// The keys above a node are those of the line.
proof fn lemma_line_above(a: AceSearch, depth: int, ply: int)
    requires
        0 <= ply < 64,
    ensures
        a.line.repeats(ply, a.g@.lo, a.g@.hi) == node_at(a, depth, ply).above.contains(
            (a.g@.lo, a.g@.hi),
        ),
{
    let above = node_at(a, depth, ply).above;
    if a.line.repeats(ply, a.g@.lo, a.g@.hi) {
        let k = choose|k: int|
            0 <= k < ply && #[trigger] a.line.path_lo[k] == a.g@.lo && a.line.path_hi[k] == a.g@.hi;
        assert(above[k] == (a.g@.lo, a.g@.hi));
    }
    if above.contains((a.g@.lo, a.g@.hi)) {
        let k = choose|k: int| 0 <= k < above.len() && above[k] == (a.g@.lo, a.g@.hi);
        assert(a.line.path_lo[k] == a.g@.lo && a.line.path_hi[k] == a.g@.hi);
    }
}

/// A pass holds beta.
spec fn pass_holds<N: Fn(NetInput) -> i32>(net: N, a: AceSearch, depth: int, beta: int, ply: int) -> bool {
    exists|y: int|
        #![trigger search_score(net, style_of(a.config), Query {
            x: pass_node(node_at(a, depth, ply)),
            alpha: -beta,
            beta: -beta + 1,
            pass_ok: false,
            v: y,
        })]
        search_score(net, style_of(a.config), Query {
            x: pass_node(node_at(a, depth, ply)),
            alpha: -beta,
            beta: -beta + 1,
            pass_ok: false,
            v: y,
        }) && beta <= -y < MATE - 200
}

/// What the table decides is a score of a search.
proof fn lemma_consulted<N: Fn(NetInput) -> i32>(
    net: N,
    a: AceSearch,
    depth: int,
    alpha: int,
    beta: int,
    ply: int,
    pass_ok: bool,
    v: i32,
)
    requires
        vouched(net, a),
        a.ready(ply),
        0 <= ply < 63,
        !closed(node_at(a, depth, ply)),
        a.tt.find(a.g@.lo, a.g@.hi) matches Some(e) && cutoff_spec(e, depth, ply, alpha, beta)
            == Cutoff::Score(v),
        -INF <= v <= INF,
    ensures
        search_score(
            net,
            style_of(a.config),
            asked(a, depth, alpha, beta, ply, pass_ok, v as int),
        ),
        ply > 0,
{
    reveal(AceSearch::ready);
    lemma_table_score(
        net,
        style_of(a.config),
        a.tt,
        asked(a, depth, alpha, beta, ply, pass_ok, v as int),
    );
}

/// A record of a search's score keeps the table vouched for.
proof fn lemma_put_vouched<N: Fn(NetInput) -> i32>(
    net: N,
    a: AceSearch,
    b: AceSearch,
    q: Query,
    rec: Record,
    bound: Bound,
    ply: int,
)
    requires
        vouched(net, a),
        a.ready(ply),
        b.config == a.config,
        search_score(net, style_of(a.config), q),
        q.x.s == a.g@,
        q.x.ply == ply,
        q.x.depth == rec.depth,
        rec.score == node_relative(q.v, ply),
        exists|leans: bool| (rec.bound, rec.tainted) == #[trigger] fence_spec(bound, q.v, leans),
        stands(bound, q),
        q.alpha < q.beta,
        stored(a.tt, b.tt, a.g@.lo, a.g@.hi, rec, a.config.pure_mode),
    ensures
        vouched(net, b),
{
    reveal(AceSearch::ready);
    let st = style_of(a.config);
    let e = a.tt.entries[a.tt.slot(a.g@.lo)];
    let w = a.tt.recorded(e, a.g@.lo, a.g@.hi, rec);
    assert(entry_vouched(net, st, a.g@.lo, a.g@.hi, w)) by {
        if !w.tainted {
            assert(stands(w.bound, q));
            assert(search_score(net, st, q));
        }
    }
    lemma_store_vouched(net, st, a.tt, b.tt, a.g@.lo, a.g@.hi, rec, a.config.pure_mode);
}

/// Where a pass holds beta, beta is the score.
proof fn lemma_pass_scored<N: Fn(NetInput) -> i32>(
    net: N,
    a: AceSearch,
    b: AceSearch,
    depth: int,
    alpha: int,
    beta: int,
    ply: int,
    pass_ok: bool,
    ev: int,
)
    requires
        pass_ok,
        depth >= 3,
        ply > 0,
        node_at(a, depth, ply) == node_at(b, depth, ply),
        b.config == a.config,
        pass_holds(net, b, depth, beta, ply),
        !closed(node_at(a, depth, ply)),
        eval_ok(net, a.config.eval, a.g@, depth, ev),
        ev >= beta,
    ensures
        search_score(
            net,
            style_of(a.config),
            asked(a, depth, alpha, beta, ply, pass_ok, beta),
        ),
{
    let st = style_of(a.config);
    let q = asked(a, depth, alpha, beta, ply, pass_ok, beta);
    let y = choose|y: int|
        #![trigger search_score(net, style_of(b.config), Query {
            x: pass_node(node_at(b, depth, ply)),
            alpha: -beta,
            beta: -beta + 1,
            pass_ok: false,
            v: y,
        })]
        search_score(net, style_of(b.config), Query {
            x: pass_node(node_at(b, depth, ply)),
            alpha: -beta,
            beta: -beta + 1,
            pass_ok: false,
            v: y,
        }) && beta <= -y < MATE - 200;
    assert(scores(net, st)(pass_query(q, y)));
    assert(eval_ok(net, st.eval, q.x.s, q.x.depth, ev));
    assert(by_pass(net, st, q, scores(net, st)));
    lemma_open_score(net, st, q);
}

/// The score of a search below, for the side that made the move.
proof fn lemma_reply<N: Fn(NetInput) -> i32>(
    net: N,
    before: AceSearch,
    m: i16,
    a: AceSearch,
    depth: int,
    alpha: int,
    beta: int,
    ply: int,
    leaf: bool,
    y: int,
)
    requires
        0 <= ply < 63,
        below(before, m, a, ply),
        on_path(before, ply),
        settled_score(a, net, depth, alpha, beta, ply + 1, y),
        score_ok(a.g@, alpha, beta, ply + 1, y),
        ends(a, depth, ply + 1) ==> -(MATE - (ply + 1)) <= y <= MATE - (ply + 1) && (
        !opponent_home(a.g@) ==> y > -(MATE - (ply + 1))),
        leaf ==> depth == 0,
    ensures
        ({
            let t = before.g@.after(m);
            let x = node_at(before, 0, ply);
            &&& y >= beta || y > -(MATE - (ply + 1)) || opponent_home(t)
            &&& y <= alpha || y <= MATE - (ply + 1)
            &&& -INF <= y <= INF
            &&& -(MATE - (ply + 1)) <= y <= MATE - (ply + 1) && (y == -(MATE - (ply + 1))
                ==> opponent_home(t)) || leaf || seen(x, t) || ply + 1 >= 63 || opponent_home(t)
                ==> reply_ok(net, before.config.eval, t, ply + 1, leaf, seen(x, t), y)
        }),
{
    reveal(below);
    let t = before.g@.after(m);
    let x = node_at(before, 0, ply);
    assert(a.g@ == t);
    assert(a.line.repeats(ply + 1, t.lo, t.hi) == (x.above.contains((t.lo, t.hi)) || (t.lo
        == before.g@.lo && t.hi == before.g@.hi))) by {
        if a.line.repeats(ply + 1, t.lo, t.hi) {
            let k = choose|k: int|
                0 <= k < ply + 1 && #[trigger] a.line.path_lo[k] == t.lo && a.line.path_hi[k]
                    == t.hi;
            assert(before.line.path_lo[k] == t.lo && before.line.path_hi[k] == t.hi);
            if k < ply {
                assert(x.above[k] == (t.lo, t.hi));
            }
        }
        if x.above.contains((t.lo, t.hi)) {
            let k = choose|k: int| 0 <= k < x.above.len() && x.above[k] == (t.lo, t.hi);
            assert(a.line.path_lo[k] == t.lo && a.line.path_hi[k] == t.hi);
        }
        if t.lo == before.g@.lo && t.hi == before.g@.hi {
            assert(a.line.path_lo[ply] == t.lo && a.line.path_hi[ply] == t.hi);
        }
    }
}

/// Arguments that a node accepts.
pub open spec fn window_ok(depth: int, alpha: int, beta: int, ply: int, prev_move: int) -> bool {
    &&& 0 <= depth <= MAX_DEPTH + ply
    &&& -INF <= alpha <= INF
    &&& -INF <= beta <= INF
    &&& alpha < beta
    &&& ply == 0 ==> alpha <= MATE && beta >= -MATE
    &&& prev_move < 512
}

/// How a node starts.
enum Entry {
    /// The time is up.
    Up,
    /// The score is settled.
    Score(i32),
    /// Moves have to be tried.
    Open,
}

impl AceSearch {
    /// Counts the node and settles it where the game is over, the line too
    /// long or a position repeats.
    fn arrive<R: Fn(Progress)>(&mut self, ply: usize, report: &R) -> (e: Entry)
        requires
            old(self).ready(ply as int),
            listens(*report),
        ensures
            final(self).ready(ply as int),
            carried(*old(self), *final(self), ply as int),
            final(self).root == old(self).root,
            e is Up ==> final(self).expired,
            e is Up ==> (old(self).nodes + 1) % 1024 == 0,
            !(e is Up) ==> final(self).expired == old(self).expired,
            final(self).tt == old(self).tt,
            e matches Entry::Score(v) ==> v == (if opponent_home(old(self).g@) {
                -(MATE - ply)
            } else {
                0
            }) && (opponent_home(old(self).g@) || ply >= 63 || (ply > 0 && (old(self).line.repeats(
                ply as int,
                old(self).g@.lo,
                old(self).g@.hi,
            ) || repeats_history(old(self).g@)))),
            e is Open ==> ply < 63 && !opponent_home(old(self).g@) && !(ply > 0 && (old(self).line.repeats(ply as int, old(self).g@.lo, old(self).g@.hi) || repeats_history(
                old(self).g@,
            ))),
            e is Open ==> on_path(*final(self), ply as int),
    {
        reveal(AceSearch::ready);
        reveal(carried);
        self.nodes = self.nodes.saturating_add(1);
        if self.time_up(report) {
            return Entry::Up;
        }
        self.line.sub_min[ply] = 64;
        let prev: usize = 1 - self.g.turn;
        if (prev == 0 && self.g.pawn[0] < 9) || (prev == 1 && self.g.pawn[1] >= 72) {
            return Entry::Score(-(MATE - ply as i32));
        }
        if ply >= 63 {
            self.line.sub_min[ply] = -1;
            self.line.sub_anc_lo[ply] = 0;
            self.line.sub_anc_hi[ply] = 0;
            return Entry::Score(0);
        }
        let lo: u32 = self.g.hash_lo;
        let hi: u32 = self.g.hash_hi;
        if ply > 0 {
            match self.line.find(ply, lo, hi) {
                Some(ri) => {
                    self.line.path_lo[ply] = lo;
                    self.line.path_hi[ply] = hi;
                    self.stats.line_repetitions = self.stats.line_repetitions.saturating_add(1);
                    self.line.sub_min[ply] = ri as i32;
                    self.line.sub_anc_lo[ply] = lo;
                    self.line.sub_anc_hi[ply] = hi;
                    return Entry::Score(0);
                },
                None => {},
            }
        }
        self.line.path_lo[ply] = lo;
        self.line.path_hi[ply] = hi;
        if ply > 0 && repeats_game_history(&self.g) {
            self.stats.game_repetitions = self.stats.game_repetitions.saturating_add(1);
            return Entry::Score(0);
        }
        Entry::Open
    }

    /// Brings the distances up to date.
    pub(crate) fn settle_in(&mut self, ply: usize)
        requires
            old(self).ready(ply as int),
        ensures
            final(self).at_node(ply as int),
            carried(*old(self), *final(self), ply as int),
            *final(self) == (AceSearch { fields: final(self).fields, ..*old(self) }),
    {
        reveal(AceSearch::ready);
        reveal(carried);
        self.fields.refresh(&self.g, ply);
    }

    /// The score of the position within a window, for the side to move. Game,
    /// bridge and everything that belongs to the plies above are as before,
    /// whether the time was up or not.
    pub(crate) fn ab<N: Fn(NetInput) -> i32, R: Fn(Progress)>(
        &mut self,
        depth: i32,
        alpha: i32,
        beta: i32,
        ply: usize,
        allow_null: bool,
        prev_move: i16,
        net: &N,
        report: &R,
    ) -> (r: Result<i32, TimeUp>)
        requires
            old(self).ready(ply as int),
            window_ok(depth as int, alpha as int, beta as int, ply as int, prev_move as int),
            ply < 64,
            tame(*net),
            listens(*report),
        ensures
            final(self).ready(ply as int),
            carried(*old(self), *final(self), ply as int),
            r matches Ok(v) ==> score_ok(
                old(self).g@,
                alpha as int,
                beta as int,
                ply as int,
                v as int,
            ) && settled_score(
                *old(self),
                *net,
                depth as int,
                alpha as int,
                beta as int,
                ply as int,
                v as int,
            ) && (ends(*old(self), depth as int, ply as int) ==> -(MATE - ply) <= v <= MATE - ply
                && (!opponent_home(old(self).g@) ==> v > -(MATE - ply))),
            r matches Ok(v) ==> settled(
                *old(self),
                depth as int,
                alpha as int,
                beta as int,
                ply as int,
            ) || v >= beta || tops(*net, node_at(*old(self), depth as int, ply as int), v as int),
            r is Err ==> final(self).expired,
            old(self).deadline.on_time() ==> r is Ok,
            vouched(*net, *old(self)) ==> vouched(*net, *final(self)),
            r matches Ok(v) ==> vouched(*net, *old(self)) ==> search_score(
                *net,
                style_of(old(self).config),
                asked(
                    *old(self),
                    depth as int,
                    alpha as int,
                    beta as int,
                    ply as int,
                    allow_null,
                    v as int,
                ),
            ),
            r matches Ok(v) ==> vouched(*net, *old(self)) && ply == 0 && depth > 0 && !opponent_home(
                old(self).g@,
            ) && alpha < v < beta ==> best_by_search(
                *net,
                style_of(old(self).config),
                asked(
                    *old(self),
                    depth as int,
                    alpha as int,
                    beta as int,
                    ply as int,
                    allow_null,
                    v as int,
                ),
                final(self).root.best,
            ),
            (old(self).nodes + 1) % 1024 != 0 && settled(
                *old(self),
                depth as int,
                alpha as int,
                beta as int,
                ply as int,
            ) ==> r is Ok,
            ply > 0 ==> final(self).root == old(self).root,
            root_ok(old(self).root, old(self).g@) ==> root_ok(final(self).root, old(self).g@),
            r matches Ok(v) ==> (ply == 0 && !settled(
                *old(self),
                depth as int,
                alpha as int,
                beta as int,
                ply as int,
            ) && alpha < v < beta ==> root_backed(
                *net,
                node_at(*old(self), depth as int, 0),
                final(self).root,
                v as int,
            )),
        decreases 64 - ply, 3nat, 0nat,
    {
        let ghost a0 = *self;
        match self.arrive(ply, report) {
            Entry::Up => {
                proof {
                    lemma_late(*self, ply as int);
                    lemma_same_game(a0, *self, ply as int);
                }
                return Err(TimeUp);
            },
            Entry::Score(v) => {
                proof {
                    lemma_same_game(a0, *self, ply as int);
                    let q = asked(
                        a0,
                        depth as int,
                        alpha as int,
                        beta as int,
                        ply as int,
                        allow_null,
                        v as int,
                    );
                    lemma_line_above(a0, depth as int, ply as int);
                    assert(closed(q.x));
                    lemma_closed_score(*net, style_of(a0.config), q);
                }
                return Ok(v);
            },
            Entry::Open => {},
        }
        let ghost a1 = *self;
        self.settle_in(ply);
        let ghost a2 = *self;
        proof {
            lemma_line_above(a0, depth as int, ply as int);
            lemma_carried(a0, a1, a2, ply as int, ply as int);
            lemma_same_game(a0, a2, ply as int);
            lemma_same_node(a0, a2, depth as int, ply as int, ply as int);
        }
        if depth <= 0 {
            let v: i32 = self.value(depth, ply, net);
            proof {
                lemma_carried(a0, a2, *self, ply as int, 64);
                lemma_same_game(a2, *self, 64);
                let q = asked(
                    a0,
                    depth as int,
                    alpha as int,
                    beta as int,
                    ply as int,
                    allow_null,
                    v as int,
                );
                assert(closed(q.x));
                lemma_closed_score(*net, style_of(a0.config), q);
            }
            return Ok(v);
        }
        let r: Result<i32, TimeUp> = self.inner_node(
            depth,
            alpha,
            beta,
            ply,
            allow_null,
            prev_move,
            net,
            report,
        );
        proof {
            lemma_carried(a0, a2, *self, ply as int, ply + 1);
            lemma_late(*self, ply as int);
            lemma_same_game(a0, *self, ply as int);
        }
        r
    }
}

/// Time is up only past the budget.
pub(crate) proof fn lemma_late(a: AceSearch, ply: int)
    requires
        a.ready(ply),
    ensures
        a.expired ==> !a.deadline.on_time(),
{
    reveal(AceSearch::ready);
}

/// Things left as they were have the same game and configuration.
pub(crate) proof fn lemma_same_game(a: AceSearch, b: AceSearch, ply: int)
    requires
        carried(a, b, ply),
    ensures
        b.g@ == a.g@,
        b.config == a.config,
        b.deadline == a.deadline,
        b.tt.generation == a.tt.generation,
{
    reveal(carried);
}

/// What searching the moves of a node has come to so far.
struct Tried {
    alpha: i32,
    /// Best score, if any move was searched.
    best: Option<i32>,
    best_move: i16,
    bound: Bound,
    /// A move reached beta.
    done: bool,
}

impl Tried {
    spec fn ok(self, s: AceState, ply: int, alpha: int, beta: int) -> bool {
        &&& -INF <= self.alpha <= INF
        &&& self.alpha <= alpha || self.alpha <= MATE - ply
        &&& ply > 0 ==> self.alpha >= alpha
        &&& self.best matches Some(b) ==> {
            &&& -INF <= b <= INF
            &&& b >= beta || b > -(MATE - ply)
            &&& b <= alpha || b <= MATE - ply
        }
        &&& self.best_move == 0 || s.playable(self.best_move)
        &&& ply == 0 ==> self.best_move == 0 || legal_in(s, self.best_move)
        &&& match self.bound {
            Bound::Exact => !self.done && (self.best matches Some(b) && (b > alpha || ply == 0)),
            Bound::Lower => self.done,
            Bound::Upper => !self.done && self.alpha == alpha && (self.best matches Some(b) ==> b
                <= alpha),
        }
        &&& if self.done {
            self.best matches Some(b) && b >= beta
        } else {
            self.alpha < beta && (self.best matches Some(b) ==> b < beta)
        }
    }

    /// The best move has the best score, where that is within the window.
    spec fn backed<N: Fn(NetInput) -> i32>(self, net: N, x: Node, alpha: int, beta: int) -> bool {
        &&& self.best matches Some(b) ==> (alpha < b < beta ==> replies(
            net,
            x,
            self.best_move,
            -b,
        ) || (x.ply == 0 && crowded(x.s)))
        &&& self.best is Some && x.ply == 0 ==> legal_in(x.s, self.best_move)
    }

    /// A move that no node leaves out has been tried.
    spec fn holds<N: Fn(NetInput) -> i32>(self, net: N, x: Node, m: i16) -> bool {
        m < 100 || x.ply == 0 ==> (self.best matches Some(b) && held(net, x, m, b as int))
    }

    /// A node keeps what raises alpha.
    spec fn kept(self, alpha: int) -> bool {
        &&& self.alpha == alpha || (self.best matches Some(b) && self.alpha <= b)
        &&& self.best matches Some(b) ==> (b > alpha ==> self.alpha == b)
    }

    /// The root records it.
    spec fn kept_by(self, r: Root, alpha: i32, ply: int) -> bool {
        &&& self.kept(alpha as int)
        &&& ply == 0 ==> (self.best matches Some(b) ==> (b > alpha ==> r.best == self.best_move
            && r.score == b))
    }
}

impl Tried {
    /// What a move with a score makes of it.
    spec fn taken(self, m: i16, score: i32, fresh: bool, beta: int) -> Tried {
        let better = match self.best {
            Some(b) => score > b,
            None => true,
        };
        if !(better || fresh) {
            self
        } else if score > self.alpha || fresh {
            Tried {
                alpha: score,
                best: Some(score),
                best_move: m,
                bound: if score >= beta {
                    Bound::Lower
                } else {
                    Bound::Exact
                },
                done: score >= beta,
            }
        } else {
            Tried { best: Some(score), best_move: m, ..self }
        }
    }

    /// Takes a move with its score; whether alpha is raised.
    fn take(&mut self, m: i16, score: i32, fresh: bool, beta: i32) -> (noted: bool)
        requires
            !old(self).done,
        ensures
            *final(self) == old(self).taken(m, score, fresh, beta as int),
            noted == ((match old(self).best {
                Some(b) => score > b,
                None => true,
            } || fresh) && (score > old(self).alpha || fresh)),
    {
        let better: bool = match self.best {
            Some(b) => score > b,
            None => true,
        };
        if better || fresh {
            self.best = Some(score);
            self.best_move = m;
            if score > self.alpha || fresh {
                self.alpha = score;
                self.bound = Bound::Exact;
                if self.alpha >= beta {
                    self.bound = Bound::Lower;
                    self.done = true;
                }
                return true;
            }
        }
        false
    }
}

/// A move counts anew because the best one so far repeats the game.
spec fn fresh_ok(t: Tried, x: Node, score: i32, fresh: bool) -> bool {
    fresh ==> x.ply == 0 && t.best == Some(score) && repeats_history(x.s.after(t.best_move))
}

proof fn lemma_taken_ok<N: Fn(NetInput) -> i32>(
    net: N,
    x: Node,
    t: Tried,
    u: Tried,
    m: i16,
    score: i32,
    fresh: bool,
    alpha: int,
    beta: int,
)
    requires
        t.ok(x.s, x.ply, alpha, beta),
        !t.done,
        u == t.taken(m, score, fresh, beta),
        fresh_ok(t, x, score, fresh),
        visit_ok(net, x, m, x.depth == 1, t.alpha as int, beta, score as int),
        x.s.playable(m),
        x.ply == 0 ==> legal_in(x.s, m),
        0 <= x.ply < 63,
        -INF <= alpha < beta <= INF,
        t.kept(alpha),
    ensures
        u.ok(x.s, x.ply, alpha, beta),
        t.best matches Some(b) ==> (u.best matches Some(c) && b <= c),
{
}

proof fn lemma_taken_backed<N: Fn(NetInput) -> i32>(
    net: N,
    x: Node,
    t: Tried,
    u: Tried,
    m: i16,
    score: i32,
    fresh: bool,
    alpha: i32,
    beta: int,
)
    requires
        t.ok(x.s, x.ply, alpha as int, beta),
        !t.done,
        u == t.taken(m, score, fresh, beta),
        fresh_ok(t, x, score, fresh),
        visit_ok(net, x, m, x.depth == 1, t.alpha as int, beta, score as int),
        x.ply == 0 ==> legal_in(x.s, m),
        0 <= x.ply < 63,
        t.backed(net, x, alpha as int, beta),
        t.kept(alpha as int),
    ensures
        u.backed(net, x, alpha as int, beta),
        u.kept(alpha as int),
{
    if fresh && alpha < score < beta {
        assert(t.alpha == score);
        if !replies(net, x, m, -score) && !crowded(x.s) {
            assert(replies(net, x, t.best_move, -score));
            assert(score == MATE - 1);
            assert(opponent_home(x.s.after(t.best_move)));
            assert(arrives(x.s, t.best_move));
        }
    }
}

proof fn lemma_taken_holds<N: Fn(NetInput) -> i32>(
    net: N,
    x: Node,
    t: Tried,
    u: Tried,
    m: i16,
    score: i32,
    fresh: bool,
    alpha: int,
    beta: int,
)
    requires
        t.ok(x.s, x.ply, alpha, beta),
        !t.done,
        u == t.taken(m, score, fresh, beta),
        fresh_ok(t, x, score, fresh),
        visit_ok(net, x, m, x.depth == 1, t.alpha as int, beta, score as int),
        0 <= x.ply < 63,
    ensures
        u.done || u.holds(net, x, m),
{
    if !u.done {
        assert(u.best matches Some(b) && score <= b);
        let b = u.best->0 as int;
        if replies(net, x, m, -score) {
            assert(held(net, x, m, score as int));
            lemma_held_more(net, x, m, score as int, b);
        } else {
            assert(score < beta);
            assert(score >= MATE - (x.ply + 1));
            assert(replies(net, x, m, 0));
            assert(held(net, x, m, b));
        }
    }
}

/// How the trial of a move went: it was left out, or it has a score by its plan
/// and is taken with it.
spec fn tried_so<N: Fn(NetInput) -> i32>(
    net: N,
    a: AceSearch,
    x: Node,
    t: Tried,
    u: Tried,
    i: int,
    m: i16,
    beta: int,
    tt_move: i16,
    y: Option<int>,
) -> bool {
    match y {
        None => u == t && (seals_off(a.config.gen, x.s, x.ply, m) || (x.depth <= 2 && x.ply > 0 && i
            >= 10 && m >= 100 && m != tt_move && (t.best matches Some(b) && b > -MATE + 200))),
        Some(v) => {
            &&& !seals_off(a.config.gen, x.s, x.ply, m)
            &&& -INF <= v <= INF
            &&& exists|fresh: bool|
                u == #[trigger] t.taken(m, v as i32, fresh, beta) && (fresh ==> t.best == Some(
                    v as i32,
                ))
            &&& vouched(net, a) ==> move_score(
                x,
                m,
                plan_spec(i, x.depth, m, tt_move, a.config.eme),
                t.alpha as int,
                beta,
                v,
                scores(net, style_of(a.config)),
            )
        },
    }
}

/// What has been tried agrees with the scores of the moves so far.
#[verifier::opaque]
spec fn tracks(t: Tried, alpha: int, moves: Seq<i16>, got: Seq<Option<int>>) -> bool {
    &&& t.best is None ==> forall|j: int| 0 <= j < got.len() ==> (#[trigger] got[j]) is None
    &&& t.best matches Some(b) ==> greatest(got, b as int) && attained(
        moves,
        got,
        b as int,
        t.best_move,
    )
    &&& floor_ok(alpha, got, got.len() as int, t.alpha as int)
    &&& t.done ==> got.len() > 0 && (t.best matches Some(b) && got.last() == Some(b as int))
}

/// So it does after one more move.
proof fn lemma_tracks_on<N: Fn(NetInput) -> i32>(
    net: N,
    a: AceSearch,
    x: Node,
    t: Tried,
    u: Tried,
    alpha: int,
    beta: int,
    tt_move: i16,
    moves: Seq<i16>,
    got: Seq<Option<int>>,
    y: Option<int>,
)
    requires
        tracks(t, alpha, moves, got),
        !t.done,
        got.len() < moves.len(),
        tried_so(net, a, x, t, u, got.len() as int, moves[got.len() as int], beta, tt_move, y),
    ensures
        tracks(u, alpha, moves, got.push(y)),
{
    reveal(tracks);
    let more = got.push(y);
    let i = got.len() as int;
    assert forall|j: int| 0 <= j < i implies #[trigger] more[j] == got[j] by {}
    assert(more[i] == y);
    assert(floor_ok(alpha, more, more.len() as int, t.alpha as int)) by {
        if t.alpha != alpha {
            let j = choose|j: int| 0 <= j < i && #[trigger] got[j] == Some(t.alpha as int);
            assert(more[j] == Some(t.alpha as int));
        }
    }
    if let Some(b) = t.best {
        let j = choose|j: int|
            0 <= j < i && #[trigger] got[j] == Some(b as int) && moves[j] == t.best_move;
        assert(more[j] == Some(b as int));
    }
    if let Some(v) = y {
        assert(more[i] == Some(v));
        let fresh = choose|fresh: bool|
            u == #[trigger] t.taken(moves[i], v as i32, fresh, beta) && (fresh ==> t.best == Some(
                v as i32,
            ));
        assert(u.best is Some);
        let b = u.best->0 as int;
        assert(greatest(more, b)) by {
            assert forall|j: int| 0 <= j < more.len() implies ((#[trigger] more[j]) matches Some(z)
                ==> z <= b) by {
                if j < i {
                    assert(more[j] == got[j]);
                }
            }
        }
        assert(attained(moves, more, b, u.best_move));
        assert(floor_ok(alpha, more, more.len() as int, u.alpha as int));
    } else {
        if let Some(b) = t.best {
            assert(greatest(more, b as int)) by {
                assert forall|j: int| 0 <= j < more.len() implies ((#[trigger] more[j]) matches Some(
                    z,
                ) ==> z <= b) by {
                    if j < i {
                        assert(more[j] == got[j]);
                    }
                }
            }
        }
    }
}

/// The trial of a move is one more step of the run.
proof fn lemma_run_on<N: Fn(NetInput) -> i32>(
    net: N,
    a: AceSearch,
    x: Node,
    t: Tried,
    u: Tried,
    alpha: int,
    beta: int,
    tt_move: i16,
    moves: Seq<i16>,
    got: Seq<Option<int>>,
    y: Option<int>,
)
    requires
        vouched(net, a),
        tracks(t, alpha, moves, got),
        got.len() < moves.len(),
        tried_so(net, a, x, t, u, got.len() as int, moves[got.len() as int], beta, tt_move, y),
        run_ok(
            style_of(a.config),
            x,
            alpha,
            beta,
            tt_move,
            moves,
            got,
            scores(net, style_of(a.config)),
        ),
    ensures
        run_ok(
            style_of(a.config),
            x,
            alpha,
            beta,
            tt_move,
            moves,
            got.push(y),
            scores(net, style_of(a.config)),
        ),
{
    reveal(tracks);
    let st = style_of(a.config);
    let told = scores(net, st);
    let more = got.push(y);
    let i = got.len() as int;
    assert forall|j: int| 0 <= j < i implies #[trigger] more[j] == got[j] by {}
    assert(more[i] == y);
    match y {
        None => {
            if !seals_off(st.gen, x.s, x.ply, moves[i]) {
                let b = t.best->0;
                let j = choose|j: int|
                    0 <= j < i && #[trigger] got[j] == Some(b as int) && moves[j] == t.best_move;
                assert(more[j] == Some(b as int));
            }
            assert(left_out(st.gen, x, tt_move, moves[i], more, i));
        },
        Some(v) => {
            if t.alpha != alpha {
                let j = choose|j: int| 0 <= j < i && #[trigger] got[j] == Some(t.alpha as int);
                assert(more[j] == Some(t.alpha as int));
            }
            assert(floor_ok(alpha, more, i, t.alpha as int));
        },
    }
    assert(one_ok(st, x, alpha, beta, tt_move, moves, more, i, told));
    lemma_run_more(st, x, alpha, beta, tt_move, moves, got, y, told);
}

/// The moves of a node were tried so, as far as needed.
spec fn tried_through<N: Fn(NetInput) -> i32>(
    net: N,
    a: AceSearch,
    x: Node,
    t: Tried,
    alpha: int,
    beta: int,
    tt_move: i16,
    moves: Seq<i16>,
) -> bool {
    exists|got: Seq<Option<int>>| #[trigger]
        tracks(t, alpha, moves, got) && (t.done || got.len() == moves.len()) && (vouched(net, a)
            ==> run_ok(
            style_of(a.config),
            x,
            alpha,
            beta,
            tt_move,
            moves,
            got,
            scores(net, style_of(a.config)),
        ))
}

/// The node's score follows from its moves.
proof fn lemma_run_scored<N: Fn(NetInput) -> i32>(
    net: N,
    a: AceSearch,
    t: Tried,
    q: Query,
    tt_move: i16,
    moves: Seq<i16>,
)
    requires
        vouched(net, a),
        !closed(q.x),
        tried_through(net, a, q.x, t, q.alpha, q.beta, tt_move, moves),
        node_order(a.config.gen, q.x.s, q.x.depth, q.x.ply, tt_move, moves),
        t.done ==> (t.best matches Some(b) && b >= q.beta),
        match t.best {
            Some(b) => q.v == b,
            None => eval_ok(net, a.config.eval, q.x.s, q.x.depth, q.v),
        },
    ensures
        search_score(net, style_of(a.config), q),
        best_by_search(net, style_of(a.config), q, t.best_move),
        t.best is None ==> forall|m: i16| #[trigger]
            best_by_search(net, style_of(a.config), q, m),
{
    reveal(tracks);
    let st = style_of(a.config);
    let told = scores(net, st);
    let got = choose|got: Seq<Option<int>>| #[trigger]
        tracks(t, q.alpha, moves, got) && (t.done || got.len() == moves.len()) && (vouched(net, a)
            ==> run_ok(st, q.x, q.alpha, q.beta, tt_move, moves, got, told));
    if t.best is Some {
        let j = choose|j: int|
            0 <= j < got.len() && #[trigger] got[j] == Some(q.v) && moves[j] == t.best_move;
        assert(!(got[j] is None));
    }
    assert(run(net, st, q, tt_move, moves, got, told));
    assert(by_moves(net, st, q, told));
    lemma_open_score(net, st, q);
}

/// A later best score holds what an earlier one held.
proof fn lemma_holds_on<N: Fn(NetInput) -> i32>(net: N, x: Node, m: i16, t: Tried, u: Tried)
    requires
        t.holds(net, x, m),
        t.best matches Some(b) ==> (u.best matches Some(c) && b <= c),
    ensures
        u.holds(net, x, m),
{
    if m < 100 || x.ply == 0 {
        lemma_held_more(net, x, m, t.best->0 as int, u.best->0 as int);
    }
}

impl AceSearch {
    /// Whether the position after the move occurred before since the last wall.
    fn move_repeats_game_history(&mut self, m: i16) -> (r: bool)
        requires
            old(self).g.wf(),
            old(self).g@.playable(m),
            old(self).g@.hist.len() < 0x7FFF_0064,
            hands_fit(old(self).g@),
        ensures
            final(self).g.wf(),
            final(self).g@ == old(self).g@,
            *final(self) == (AceSearch { g: final(self).g, ..*old(self) }),
            r == repeats_history(old(self).g@.after(m)),
    {
        proof {
            lemma_ace_unmake_restores(self.g@, m);
        }
        self.g.make_move(m);
        let r: bool = repeats_game_history(&self.g);
        self.g.unmake_move();
        r
    }

    /// Hands what the child leaned on up to the node.
    fn hand_up(&mut self, ply: usize)
        requires
            old(self).at_node(ply as int),
            ply < 63,
        ensures
            final(self).at_node(ply as int),
            carried(*old(self), *final(self), 64),
            *final(self) == (AceSearch { line: final(self).line, ..*old(self) }),
    {
        reveal(AceSearch::ready);
        reveal(carried);
        self.line.inherit(ply);
    }

    /// The score of the position after a move, by the plan, for the side to
    /// move there.
    #[verifier::rlimit(60)]
    fn search_child<N: Fn(NetInput) -> i32, R: Fn(Progress)>(
        &mut self,
        m: i16,
        plan: ChildPlan,
        alpha: i32,
        beta: i32,
        ply: usize,
        net: &N,
        report: &R,
        Ghost(before): Ghost<AceSearch>,
        Ghost(at): Ghost<int>,
    ) -> (r: Result<i32, TimeUp>)
        requires
            below(before, m, *old(self), ply as int),
            old(self).config == before.config,
            old(self).ready(ply + 1),
            ply < 63,
            is_ace_move(m),
            -INF <= alpha < beta <= INF,
            match plan {
                ChildPlan::Extended { depth } => 0 <= depth <= MAX_DEPTH + ply + 1,
                ChildPlan::Reduced { depth, full } => 0 <= depth <= MAX_DEPTH + ply + 1 && 0 <= full
                    <= MAX_DEPTH + ply + 1,
                ChildPlan::Scouted { depth } => 0 <= depth <= MAX_DEPTH + ply + 1,
                ChildPlan::Full { depth } => 0 <= depth <= MAX_DEPTH + ply + 1,
            },
            on_path(before, ply as int),
            tame(*net),
            listens(*report),
        ensures
            below(before, m, *final(self), ply as int),
            final(self).config == before.config,
            r matches Ok(v) ==> visit_ok(
                *net,
                node_at(before, 0, ply as int),
                m,
                plan.is_leaf(),
                alpha as int,
                beta as int,
                -v as int,
            ),
            r is Err ==> final(self).expired,
            final(self).root == old(self).root,
            vouched(*net, *old(self)) ==> vouched(*net, *final(self)),
            r matches Ok(v) ==> vouched(*net, *old(self)) ==> move_score(
                node_at(before, at, ply as int),
                m,
                plan,
                alpha as int,
                beta as int,
                -v as int,
                scores(*net, style_of(before.config)),
            ),
        decreases 64 - ply, 0nat, 0nat,
    {
        let ghost x = node_at(before, at, ply as int);
        let ghost told_by = vouched(*net, *self);
        let ghost mut last = *self;
        let low: i32 = -alpha - 1;
        let ghost mut last_depth: int = 0;
        let ghost mut last_alpha: int = 0;
        let ghost mut last_beta: int = 0;
        proof {
            match plan {
                ChildPlan::Extended { depth } => {
                    last_depth = depth as int;
                    last_alpha = -beta;
                    last_beta = -alpha;
                },
                ChildPlan::Full { depth } => {
                    last_depth = depth as int;
                    last_alpha = -beta;
                    last_beta = -alpha;
                },
                ChildPlan::Reduced { depth, .. } => {
                    last_depth = depth as int;
                    last_alpha = low as int;
                    last_beta = -alpha;
                },
                ChildPlan::Scouted { depth } => {
                    last_depth = depth as int;
                    last_alpha = low as int;
                    last_beta = -alpha;
                },
            }
        }
        let ghost mut first: int = 0;
        let result: Result<i32, TimeUp> = match plan {
            ChildPlan::Extended { depth } => {
                proof {
                    lemma_child_node(before, m, last, ply as int, at, depth as int);
                }
                self.ab(depth, -beta, -alpha, ply + 1, true, m, net, report)
            },
            ChildPlan::Full { depth } => {
                proof {
                    lemma_child_node(before, m, last, ply as int, at, depth as int);
                }
                self.ab(depth, -beta, -alpha, ply + 1, true, m, net, report)
            },
            ChildPlan::Reduced { depth, full } => {
                proof {
                    lemma_child_node(before, m, last, ply as int, at, depth as int);
                }
                match self.ab(depth, low, -alpha, ply + 1, true, m, net, report) {
                    Ok(v) => {
                        proof {
                            first = v as int;
                        }
                        if -v > alpha {
                            proof {
                                lemma_below_step(before, m, last, *self, ply as int);
                                lemma_below_style(before, m, *self, ply as int);
                                last = *self;
                                last_depth = full as int;
                                last_alpha = -beta;
                                lemma_child_node(before, m, last, ply as int, at, full as int);
                            }
                            self.ab(full, -beta, -alpha, ply + 1, true, m, net, report)
                        } else {
                            Ok(v)
                        }
                    },
                    Err(e) => Err(e),
                }
            },
            ChildPlan::Scouted { depth } => {
                proof {
                    lemma_child_node(before, m, last, ply as int, at, depth as int);
                }
                match self.ab(depth, low, -alpha, ply + 1, true, m, net, report) {
                    Ok(v) => {
                        proof {
                            first = v as int;
                        }
                        if -v > alpha && -v < beta {
                            proof {
                                lemma_below_step(before, m, last, *self, ply as int);
                                lemma_below_style(before, m, *self, ply as int);
                                last = *self;
                                last_alpha = -beta;
                                lemma_child_node(before, m, last, ply as int, at, depth as int);
                            }
                            self.ab(depth, -beta, -alpha, ply + 1, true, m, net, report)
                        } else {
                            Ok(v)
                        }
                    },
                    Err(e) => Err(e),
                }
            },
        };
        proof {
            if told_by {
                if let Ok(v) = result {
                    lemma_move_scored(
                        *net,
                        style_of(before.config),
                        x,
                        m,
                        plan,
                        alpha as int,
                        beta as int,
                        first,
                        -v as int,
                    );
                }
            }
        }
        proof {
            if let Ok(v) = result {
                reveal(below);
                lemma_reply(
                    *net,
                    before,
                    m,
                    last,
                    last_depth,
                    last_alpha,
                    last_beta,
                    ply as int,
                    plan.is_leaf(),
                    v as int,
                );
            }
            lemma_below_step(before, m, last, *self, ply as int);
            lemma_below_style(before, m, *self, ply as int);
        }
        result
    }

    /// The score of one move, for the side that makes it.
    fn visit<N: Fn(NetInput) -> i32, R: Fn(Progress)>(
        &mut self,
        m: i16,
        plan: ChildPlan,
        alpha: i32,
        beta: i32,
        ply: usize,
        net: &N,
        report: &R,
        Ghost(at): Ghost<int>,
    ) -> (r: Result<i32, TimeUp>)
        requires
            old(self).at_node(ply as int),
            ply < 63,
            old(self).g@.playable(m),
            is_ace_move(m),
            -INF <= alpha < beta <= INF,
            match plan {
                ChildPlan::Extended { depth } => 0 <= depth <= MAX_DEPTH + ply + 1,
                ChildPlan::Reduced { depth, full } => 0 <= depth <= MAX_DEPTH + ply + 1 && 0 <= full
                    <= MAX_DEPTH + ply + 1,
                ChildPlan::Scouted { depth } => 0 <= depth <= MAX_DEPTH + ply + 1,
                ChildPlan::Full { depth } => 0 <= depth <= MAX_DEPTH + ply + 1,
            },
            on_path(*old(self), ply as int),
            tame(*net),
            listens(*report),
        ensures
            final(self).at_node(ply as int),
            carried(*old(self), *final(self), ply + 1),
            r matches Ok(v) ==> visit_ok(
                *net,
                node_at(*old(self), 0, ply as int),
                m,
                plan.is_leaf(),
                alpha as int,
                beta as int,
                v as int,
            ),
            r is Err ==> final(self).expired,
            final(self).root == old(self).root,
            vouched(*net, *old(self)) ==> vouched(*net, *final(self)),
            r matches Ok(v) ==> vouched(*net, *old(self)) ==> move_score(
                node_at(*old(self), at, ply as int),
                m,
                plan,
                alpha as int,
                beta as int,
                v as int,
                scores(*net, style_of(old(self).config)),
            ),
        decreases 64 - ply, 0nat, 1nat,
    {
        let nd0: usize = self.fields.idx0;
        let nd1: usize = self.fields.idx1;
        let nst: i32 = self.fields.stamp;
        let ghost before = *self;
        self.play(m, ply);
        proof {
            lemma_below_start(before, m, *self, ply as int);
            lemma_below_style(before, m, *self, ply as int);
        }
        let result: Result<i32, TimeUp> = self.search_child(
            m,
            plan,
            alpha,
            beta,
            ply,
            net,
            report,
            Ghost(before),
            Ghost(at),
        );
        self.unwind_move(ply, nd0, nd1, nst, Ghost(m), Ghost(before));
        let ghost back = *self;
        self.hand_up(ply);
        proof {
            lemma_carried(before, back, *self, ply + 1, 64);
            lemma_same_game(before, back, ply + 1);
        }
        match result {
            Ok(v) => Ok(-v),
            Err(e) => Err(e),
        }
    }

    /// Passes.
    fn give_turn(&mut self, ply: usize)
        requires
            old(self).at_node(ply as int),
            ply < 63,
        ensures
            final(self).ready(ply + 1),
            final(self).g@ == old(self).g@.passed(),
            *final(self) == (AceSearch {
                g: final(self).g,
                bridge: final(self).bridge,
                ..*old(self)
            }),
            bridge_passed(old(self).bridge, final(self).bridge),
    {
        reveal(AceSearch::ready);
        proof {
            lemma_passed(self.g@);
        }
        self.g.pass();
        match &mut self.bridge {
            Some(b) => {
                b.pass();
            },
            None => {},
        }
    }

    /// Takes the pass back and returns to the node's distances.
    fn take_turn(
        &mut self,
        ply: usize,
        nd0: usize,
        nd1: usize,
        nst: i32,
        Ghost(before): Ghost<AceSearch>,
        Ghost(mid): Ghost<AceSearch>,
    )
        requires
            before.at_node(ply as int),
            ply < 63,
            mid.g@ == before.g@.passed(),
            mid == (AceSearch { g: mid.g, bridge: mid.bridge, ..before }),
            bridge_passed(before.bridge, mid.bridge),
            old(self).ready(ply + 1),
            carried(mid, *old(self), ply + 1),
            nd0 == before.fields.idx0,
            nd1 == before.fields.idx1,
            nst == before.fields.stamp,
        ensures
            final(self).at_node(ply as int),
            carried(before, *final(self), ply + 1),
            final(self).root == old(self).root,
            final(self).expired == old(self).expired,
            final(self).tt == old(self).tt,
    {
        reveal(AceSearch::ready);
        reveal(carried);
        proof {
            lemma_passed(before.g@);
        }
        self.g.pass();
        match &mut self.bridge {
            Some(b) => {
                b.pass();
            },
            None => {},
        }
        self.fields.idx0 = nd0;
        self.fields.idx1 = nd1;
        self.fields.stamp = nst;
        proof {
            assert(self.fields.d0[nd0 as int] == before.fields.d0[nd0 as int]);
            assert(self.fields.d1[nd1 as int] == before.fields.d1[nd1 as int]);
        }
    }

    /// Lets the opponent move twice at a reduced depth; `beta` where that still
    /// holds it.
    fn null_try<N: Fn(NetInput) -> i32, R: Fn(Progress)>(
        &mut self,
        depth: i32,
        beta: i32,
        ply: usize,
        net: &N,
        report: &R,
    ) -> (r: Result<Option<i32>, TimeUp>)
        requires
            old(self).at_node(ply as int),
            ply < 63,
            3 <= depth <= MAX_DEPTH + ply,
            -INF < beta <= INF,
            on_path(*old(self), ply as int),
            tame(*net),
            listens(*report),
        ensures
            final(self).at_node(ply as int),
            carried(*old(self), *final(self), ply + 1),
            r matches Ok(Some(v)) ==> v == beta && v <= MATE - ply,
            r is Err ==> final(self).expired,
            final(self).root == old(self).root,
            vouched(*net, *old(self)) ==> vouched(*net, *final(self)),
            r matches Ok(Some(v)) ==> vouched(*net, *old(self)) ==> pass_holds(
                *net,
                *old(self),
                depth as int,
                beta as int,
                ply as int,
            ),
        decreases 64 - ply, 0nat, 0nat,
    {
        let nd0: usize = self.fields.idx0;
        let nd1: usize = self.fields.idx1;
        let nst: i32 = self.fields.stamp;
        let ghost before = *self;
        self.give_turn(ply);
        let ghost mid = *self;
        proof {
            lemma_pass_node(before, mid, ply as int, depth as int);
        }
        let result: Result<i32, TimeUp> = self.ab(
            depth - 3,
            -beta,
            -beta + 1,
            ply + 1,
            false,
            0,
            net,
            report,
        );
        proof {
            lemma_same_game(mid, *self, ply + 1);
        }
        self.take_turn(ply, nd0, nd1, nst, Ghost(before), Ghost(mid));
        let ghost back = *self;
        self.hand_up(ply);
        proof {
            lemma_carried(before, back, *self, ply + 1, 64);
            lemma_same_game(before, back, ply + 1);
        }
        match result {
            Ok(v) => {
                let ns: i32 = -v;
                if ns >= beta && ns < MATE - 200 {
                    Ok(Some(beta))
                } else {
                    Ok(None)
                }
            },
            Err(e) => Err(e),
        }
    }
}

impl AceSearch {
    /// Records a root move that raised alpha and reports a change.
    fn note_root<R: Fn(Progress)>(&mut self, m: i16, score: i32, ply: usize, report: &R)
        requires
            old(self).at_node(ply as int),
            listens(*report),
        ensures
            final(self).at_node(ply as int),
            carried(*old(self), *final(self), 64),
            final(self).expired == old(self).expired,
            final(self).tt == old(self).tt,
            final(self).root == (Root { best: m, score, ..old(self).root }),
    {
        reveal(AceSearch::ready);
        reveal(carried);
        self.root.best = m;
        self.root.score = score;
        if self.stream.last_best != m {
            self.stream.last_best = m;
            self.stream.root_score = score;
            self.stream.emit(&self.g, self.nodes, true, report);
        }
    }

    /// Learns from a cutoff.
    fn learn(&mut self, m: i16, depth: i32, ply: usize, prev_move: i16)
        requires
            old(self).at_node(ply as int),
            ply < 64,
            is_ace_move(m),
            0 <= depth <= DEPTH_LIMIT,
            prev_move < 512,
        ensures
            final(self).at_node(ply as int),
            carried(*old(self), *final(self), 64),
            *final(self) == (AceSearch { memory: final(self).memory, ..*old(self) }),
    {
        reveal(AceSearch::ready);
        reveal(carried);
        self.memory.reward(m, depth, ply, prev_move);
    }

    /// Whether a wall below the root still has to be checked for closing a way
    /// off, and fails.
    fn seals(&self, m: i16, ply: usize) -> (r: bool)
        requires
            self.at_node(ply as int),
            is_ace_move(m),
        ensures
            r == (m >= 100 && ply > 0 && !self.config.gen.from_board(ply as int)
                && !self.g@.wall_legal_spec(wall_slot(m), move_orientation(m))),
    {
        reveal(AceSearch::ready);
        let lazy: bool = !(self.config.gen.ti_movegen && !self.config.gen.cat_walls
            && !self.config.gen.dead_zone_prune);
        if m >= 100 && ply > 0 && lazy {
            let wall_type: usize = if m < 200 {
                0
            } else {
                1
            };
            !self.g.wall_legal(wall_type, (m % 100) as usize)
        } else {
            false
        }
    }

    /// At the root, whether an equal move is better because the best one so
    /// far repeats a position of the game and this one does not.
    fn prefers_fresh(&mut self, t: &Tried, m: i16, score: i32, ply: usize) -> (r: bool)
        requires
            old(self).at_node(ply as int),
            t.best_move == 0 || old(self).g@.playable(t.best_move),
            old(self).g@.playable(m),
        ensures
            final(self).at_node(ply as int),
            carried(*old(self), *final(self), 64),
            *final(self) == (AceSearch { g: final(self).g, ..*old(self) }),
            r == (ply == 0 && t.best == Some(score) && t.best_move != 0 && repeats_history(
                old(self).g@.after(t.best_move),
            ) && !repeats_history(old(self).g@.after(m))),
    {
        reveal(AceSearch::ready);
        reveal(carried);
        if ply != 0 || t.best_move == 0 {
            return false;
        }
        match t.best {
            Some(b) => {
                if b != score {
                    return false;
                }
            },
            None => {
                return false;
            },
        }
        self.move_repeats_game_history(t.best_move) && !self.move_repeats_game_history(m)
    }

    /// Tries one move of a node.
    fn try_move<N: Fn(NetInput) -> i32, R: Fn(Progress)>(
        &mut self,
        t: &mut Tried,
        i: usize,
        m: i16,
        depth: i32,
        beta: i32,
        ply: usize,
        tt_move: i16,
        prev_move: i16,
        net: &N,
        report: &R,
        Ghost(alpha): Ghost<i32>,
    ) -> (r: Result<(), TimeUp>)
        requires
            old(self).at_node(ply as int),
            on_path(*old(self), ply as int),
            old(t).ok(old(self).g@, ply as int, alpha as int, beta as int),
            !old(t).done,
            old(t).backed(
                *net,
                node_at(*old(self), depth as int, ply as int),
                alpha as int,
                beta as int,
            ),
            old(t).kept_by(old(self).root, alpha, ply as int),
            -INF <= alpha < beta,
            ply == 0 ==> alpha <= MATE && beta >= -MATE,
            old(self).g@.playable(m),
            is_ace_move(m),
            ply == 0 ==> legal_in(old(self).g@, m),
            ply < 63,
            1 <= depth <= MAX_DEPTH + ply,
            -INF <= beta <= INF,
            prev_move < 512,
            tame(*net),
            listens(*report),
        ensures
            final(self).at_node(ply as int),
            carried(*old(self), *final(self), ply + 1),
            final(t).ok(old(self).g@, ply as int, alpha as int, beta as int),
            r is Err ==> final(self).expired,
            ply > 0 ==> final(self).root == old(self).root,
            root_ok(old(self).root, old(self).g@) ==> root_ok(final(self).root, old(self).g@),
            final(t).backed(
                *net,
                node_at(*old(self), depth as int, ply as int),
                alpha as int,
                beta as int,
            ),
            final(t).kept_by(final(self).root, alpha, ply as int),
            old(t).best matches Some(b) ==> (final(t).best matches Some(c) && b <= c),
            r is Ok ==> final(t).done || final(t).holds(
                *net,
                node_at(*old(self), depth as int, ply as int),
                m,
            ),
            vouched(*net, *old(self)) ==> vouched(*net, *final(self)),
            r is Ok ==> exists|y: Option<int>| #[trigger]
                tried_so(
                    *net,
                    *old(self),
                    node_at(*old(self), depth as int, ply as int),
                    *old(t),
                    *final(t),
                    i as int,
                    m,
                    beta as int,
                    tt_move,
                    y,
                ),
        decreases 64 - ply, 1nat, 0nat,
    {
        let ghost a0 = *self;
        let ghost x = node_at(*self, depth as int, ply as int);
        let ghost nothing: Option<int> = None;
        proof {
            lemma_carried_self(a0, ply + 1);
        }
        let history: i32 = self.memory.history[m as usize];
        if frontier_skips(depth, ply, i, m, tt_move, history, t.best) {
            assert(tried_so(
                *net,
                a0,
                x,
                *t,
                *t,
                i as int,
                m,
                beta as int,
                tt_move,
                nothing,
            ));
            return Ok(());
        }
        if self.seals(m, ply) {
            assert(tried_so(
                *net,
                a0,
                x,
                *t,
                *t,
                i as int,
                m,
                beta as int,
                tt_move,
                nothing,
            ));
            return Ok(());
        }
        let plan: ChildPlan = child_plan(i, depth, m, tt_move, self.config.eme);
        let score: i32 = match self.visit(
            m,
            plan,
            t.alpha,
            beta,
            ply,
            net,
            report,
            Ghost(depth as int),
        ) {
            Ok(v) => v,
            Err(e) => {
                return Err(e);
            },
        };
        let ghost a1 = *self;
        proof {
            lemma_same_game(a0, a1, ply + 1);
            assert(seen(node_at(a0, 0, ply as int), a0.g@.after(m)) == seen(x, a0.g@.after(m)));
        }
        let ghost t0 = *t;
        let fresh: bool = self.prefers_fresh(t, m, score, ply);
        let ghost a2 = *self;
        proof {
            lemma_carried(a0, a1, a2, ply + 1, 64);
            lemma_same_game(a0, a2, ply + 1);
        }
        if ply == 0 && m < 100 && score > self.root.pawn_score {
            self.note_pawn(m, score, ply);
        }
        let ghost a3 = *self;
        proof {
            lemma_carried_step(a0, a2, a3, ply + 1);
        }
        let noted: bool = t.take(m, score, fresh, beta);
        if noted {
            if ply == 0 {
                self.note_root(m, score, ply, report);
            }
            let ghost a4 = *self;
            proof {
                lemma_carried_step(a0, a3, a4, ply + 1);
            }
            if t.done {
                self.learn(m, depth, ply, prev_move);
                proof {
                    lemma_carried(a0, a4, *self, ply + 1, 64);
                }
            }
        }
        proof {
            let al = alpha as int;
            let be = beta as int;
            lemma_taken_ok(*net, x, t0, *t, m, score, fresh, al, be);
            lemma_taken_backed(*net, x, t0, *t, m, score, fresh, alpha, be);
            lemma_taken_holds(*net, x, t0, *t, m, score, fresh, al, be);
            lemma_same_game(a0, *self, ply + 1);
            assert(*t == t0.taken(m, score, fresh, be));
            assert(tried_so(
                *net,
                a0,
                x,
                t0,
                *t,
                i as int,
                m,
                be,
                tt_move,
                Some(score as int),
            ));
        }
        Ok(())
    }

    /// Records a better pawn move of the root.
    fn note_pawn(&mut self, m: i16, score: i32, ply: usize)
        requires
            old(self).at_node(ply as int),
        ensures
            final(self).at_node(ply as int),
            carried(*old(self), *final(self), 64),
            *final(self) == (AceSearch { root: final(self).root, ..*old(self) }),
            final(self).root == (Root { pawn_best: m, pawn_score: score, ..old(self).root }),
    {
        reveal(AceSearch::ready);
        reveal(carried);
        self.root.pawn_best = m;
        self.root.pawn_score = score;
    }
}

/// The move is among the first `n`.
pub open spec fn listed(moves: Seq<i16>, n: int, m: i16) -> bool {
    exists|i: int| 0 <= i < n && #[trigger] moves[i] == m
}

/// Nothing happened, or only what leaves things as they were.
pub(crate) proof fn lemma_carried_step(a: AceSearch, b: AceSearch, c: AceSearch, ply: int)
    requires
        carried(a, b, ply),
        c == b || carried(b, c, 64),
        ply <= 64,
    ensures
        carried(a, c, ply),
{
    if c != b {
        lemma_carried(a, b, c, ply, 64);
    }
}

/// Stores a record of a search.
fn store_entry(tt: &mut Table, lo: u32, hi: u32, rec: Record, pure_mode: bool)
    requires
        old(tt).wf(),
        scores_ok(*old(tt)),
        bound_fits(rec.bound, rec.score as int),
    ensures
        final(tt).wf(),
        final(tt).generation == old(tt).generation,
        scores_ok(*final(tt)),
        stored(*old(tt), *final(tt), lo, hi, rec, pure_mode),
{
    let ghost before = *tt;
    tt.store(lo, hi, rec, pure_mode);
    proof {
        lemma_store_keeps_scores(before, *tt, lo, hi, rec, pure_mode);
    }
}

/// Where every move of the list was tried, nothing that counts scores more than
/// the best; without a score nothing counts.
proof fn lemma_tried_all<N: Fn(NetInput) -> i32>(net: N, x: Node, t: Tried, moves: Seq<i16>, n: int)
    requires
        t.done || forall|k: int| 0 <= k < n ==> t.holds(net, x, #[trigger] moves[k]),
        forall|m: i16| #[trigger] counts(x, m) ==> listed(moves, n, m),
        t.done ==> t.best is Some,
    ensures
        t.best matches Some(b) ==> t.done || tops(net, x, b as int),
        t.best is None ==> forall|m: i16| !(#[trigger] counts(x, m)),
{
    if !t.done {
        assert forall|m: i16| #[trigger] counts(x, m) implies t.best is Some && held(
            net,
            x,
            m,
            t.best->0 as int,
        ) by {
            let i = choose|i: int| 0 <= i < n && #[trigger] moves[i] == m;
            assert(t.holds(net, x, moves[i]));
        }
    }
}

impl AceSearch {
    /// The table's move and what its entry is good for.
    fn consult(&self, depth: i32, alpha: i32, beta: i32, ply: usize) -> (r: (i16, Cutoff))
        requires
            self.at_node(ply as int),
            ply < 64,
        ensures
            -INF <= alpha <= INF && -INF <= beta <= INF ==> (r.1 matches Cutoff::Score(v) ==> -INF
                <= v <= INF && (v >= beta || v > -(MATE - ply)) && (v <= alpha || v <= MATE - ply)),
            match self.tt.find(self.g@.lo, self.g@.hi) {
                Some(e) => r.0 == e.mv && r.1 == cutoff_spec(
                    e,
                    depth as int,
                    ply as int,
                    alpha as int,
                    beta as int,
                ),
                None => r.0 == 0 && r.1 == Cutoff::Nothing,
            },
    {
        reveal(AceSearch::ready);
        match self.tt.probe(self.g.hash_lo, self.g.hash_hi) {
            Some(e) => {
                assert(entry_ok(e));
                (e.mv, table_cutoff(&e, depth, ply, alpha, beta))
            },
            None => (0, Cutoff::Nothing),
        }
    }

    /// Writes the node's moves in the order to try them; their number.
    pub(crate) fn ordered_moves(
        &self,
        depth: i32,
        ply: usize,
        tt_move: i16,
        prev_move: i16,
        moves: &mut [i16; 160],
    ) -> (n: usize)
        requires
            self.at_node(ply as int),
            ply < 64,
            prev_move < 512,
        ensures
            n <= 160,
            forall|i: int|
                0 <= i < n ==> is_ace_move(#[trigger] final(moves)[i]) && self.g@.playable(
                    final(moves)[i],
                ),
            ply == 0 ==> forall|i: int|
                0 <= i < n ==> legal_in(self.g@, #[trigger] final(moves)[i]),
            ply == 0 && n == 0 && self.g@.winner_spec() == -1 ==> forall|m: i16|
                !(#[trigger] legal_in(self.g@, m)),
            forall|m: i16| #[trigger]
                counts(node_at(*self, depth as int, ply as int), m) ==> listed(
                    final(moves)@,
                    n as int,
                    m,
                ),
            node_order(
                self.config.gen,
                self.g@,
                depth as int,
                ply as int,
                tt_move,
                final(moves)@.subrange(0, n as int),
            ),
    {
        reveal(AceSearch::ready);
        let n: usize = gen_moves(
            &self.g,
            &self.bridge,
            self.config.gen,
            ply,
            depth,
            tt_move,
            moves,
        );
        let hints: OrderHints = OrderHints {
            tt_move,
            cm_move: self.memory.answer(prev_move),
            k0: self.memory.k0[ply],
            k1: self.memory.k1[ply],
        };
        let ghost before = moves@;
        let ghost key = key_of(
            hints,
            self.fields.field_spec(self.g@.turn),
            self.memory.history@,
        );
        order_moves(moves, n, hints, self.fields.field(self.g.turn), &self.memory.history);
        proof {
            let list = before.subrange(0, n as int);
            let scene = choose|scene: WallScene|
                #![trigger node_moves(self.config.gen, self.bridge, self.g@, scene, ply as int)]
                scene.tt_move == tt_move && (self.bridge matches Some(b) ==> scene_right(
                    scene,
                    self.config.gen.rule(ply as int),
                    b.board,
                    depth as int,
                )) && list == node_moves(
                    self.config.gen,
                    self.bridge,
                    self.g@,
                    scene,
                    ply as int,
                );
            lemma_sorted_head(before, key, n as int, n as int);
            assert(ordered_by(
                self.config.gen,
                self.g@,
                depth as int,
                ply as int,
                tt_move,
                self.bridge,
                scene,
                key,
                moves@.subrange(0, n as int),
            ));
            lemma_sorted(before, key, n as int);
            assert forall|i: int| 0 <= i < n implies exists|j: int|
                0 <= j < n && #[trigger] before[j] == #[trigger] moves[i] by {
                let sorted = sorted_desc(before, key, n as int);
                assert(moves@.subrange(0, n as int)[i] == sorted[i]);
                let head = before.subrange(0, n as int);
                assert(head.contains(sorted[i]));
                let j = choose|j: int| 0 <= j < head.len() && head[j] == sorted[i];
                assert(before[j] == moves[i]);
            }
            assert forall|m: i16| #[trigger]
                counts(node_at(*self, depth as int, ply as int), m) implies listed(
                moves@,
                n as int,
                m,
            ) by {
                let j = choose|j: int| 0 <= j < n && before[j] == m;
                lemma_sorted_lists(before, key, n as int, j);
                let i = choose|i: int|
                    0 <= i < n && #[trigger] sorted_desc(before, key, n as int)[i] == before[j];
                assert(moves@.subrange(0, n as int)[i] == m);
                assert(moves@[i] == m);
            }
        }
        n
    }

    /// Tries the node's moves in order until one reaches beta.
    fn try_moves<N: Fn(NetInput) -> i32, R: Fn(Progress)>(
        &mut self,
        moves: &[i16; 160],
        n: usize,
        depth: i32,
        alpha: i32,
        beta: i32,
        ply: usize,
        tt_move: i16,
        prev_move: i16,
        net: &N,
        report: &R,
    ) -> (r: Result<Tried, TimeUp>)
        requires
            old(self).at_node(ply as int),
            n <= 160,
            forall|i: int|
                0 <= i < n ==> is_ace_move(#[trigger] moves[i]) && old(self).g@.playable(moves[i]),
            ply == 0 ==> forall|i: int| 0 <= i < n ==> legal_in(old(self).g@, #[trigger] moves[i]),
            ply < 63,
            1 <= depth <= MAX_DEPTH + ply,
            -INF <= alpha < beta <= INF,
            ply == 0 ==> alpha <= MATE && beta >= -MATE,
            prev_move < 512,
            on_path(*old(self), ply as int),
            tame(*net),
            listens(*report),
        ensures
            final(self).at_node(ply as int),
            carried(*old(self), *final(self), ply + 1),
            r matches Ok(t) ==> t.ok(old(self).g@, ply as int, alpha as int, beta as int) && t.backed(
                *net,
                node_at(*old(self), depth as int, ply as int),
                alpha as int,
                beta as int,
            ) && t.kept_by(final(self).root, alpha, ply as int) && (t.done || forall|k: int|
                0 <= k < n ==> t.holds(
                    *net,
                    node_at(*old(self), depth as int, ply as int),
                    #[trigger] moves[k],
                )),
            r is Err ==> final(self).expired,
            ply > 0 ==> final(self).root == old(self).root,
            root_ok(old(self).root, old(self).g@) ==> root_ok(final(self).root, old(self).g@),
            vouched(*net, *old(self)) ==> vouched(*net, *final(self)),
            r matches Ok(t) ==> tried_through(
                *net,
                *old(self),
                node_at(*old(self), depth as int, ply as int),
                t,
                alpha as int,
                beta as int,
                tt_move,
                moves@.subrange(0, n as int),
            ),
        decreases 64 - ply, 1nat, 200nat,
    {
        let ghost a0 = *self;
        let ghost s = self.g@;
        let ghost st = style_of(self.config);
        let ghost list = moves@.subrange(0, n as int);
        let ghost mut got: Seq<Option<int>> = Seq::empty();
        let ghost x = node_at(*self, depth as int, ply as int);
        let mut t: Tried = Tried {
            alpha,
            best: None,
            best_move: 0,
            bound: Bound::Upper,
            done: false,
        };
        proof {
            lemma_carried_self(a0, ply + 1);
            reveal(tracks);
        }
        let mut i: usize = 0;
        while i < n && !t.done
            invariant
                i <= n <= 160,
                st == style_of(a0.config),
                list == moves@.subrange(0, n as int),
                got.len() == i,
                tracks(t, alpha as int, list, got),
                vouched(*net, a0) ==> vouched(*net, *self) && run_ok(
                    st,
                    x,
                    alpha as int,
                    beta as int,
                    tt_move,
                    list,
                    got,
                    scores(*net, st),
                ),
                a0 == *old(self),
                s == a0.g@,
                self.at_node(ply as int),
                carried(a0, *self, ply + 1),
                t.ok(s, ply as int, alpha as int, beta as int),
                x == node_at(a0, depth as int, ply as int),
                on_path(a0, ply as int),
                t.backed(*net, x, alpha as int, beta as int),
                t.kept_by(self.root, alpha, ply as int),
                t.done || forall|k: int| 0 <= k < i ==> t.holds(*net, x, #[trigger] moves[k]),
                -INF <= alpha < beta,
                ply == 0 ==> alpha <= MATE && beta >= -MATE,
                forall|k: int|
                    0 <= k < n ==> is_ace_move(#[trigger] moves[k]) && s.playable(moves[k]),
                ply == 0 ==> forall|k: int| 0 <= k < n ==> legal_in(s, #[trigger] moves[k]),
                ply < 63,
                1 <= depth <= MAX_DEPTH + ply,
                -INF <= beta <= INF,
                prev_move < 512,
                tame(*net),
                listens(*report),
                ply > 0 ==> self.root == a0.root,
                root_ok(a0.root, s) ==> root_ok(self.root, s),
            decreases n - i,
        {
            let ghost a1 = *self;
            let ghost t1 = t;
            proof {
                lemma_same_game(a0, a1, ply + 1);
                lemma_same_node(a0, a1, depth as int, ply as int, ply + 1);
            }
            let m: i16 = moves[i];
            let r: Result<(), TimeUp> = self.try_move(
                &mut t,
                i,
                m,
                depth,
                beta,
                ply,
                tt_move,
                prev_move,
                net,
                report,
                Ghost(alpha),
            );
            proof {
                lemma_carried(a0, a1, *self, ply + 1, ply + 1);
                if r is Ok {
                    assert(list[i as int] == m);
                    let al = alpha as int;
                    let be = beta as int;
                    let y = choose|y: Option<int>| #[trigger]
                        tried_so(*net, a1, x, t1, t, i as int, m, be, tt_move, y);
                    lemma_tracks_on(*net, a1, x, t1, t, al, be, tt_move, list, got, y);
                    if vouched(*net, a0) {
                        lemma_run_on(*net, a1, x, t1, t, al, be, tt_move, list, got, y);
                    }
                    got = got.push(y);
                }
                if !t.done {
                    assert forall|k: int| 0 <= k < i implies t.holds(
                        *net,
                        x,
                        #[trigger] moves[k],
                    ) by {
                        lemma_holds_on(*net, x, moves[k], t1, t);
                    }
                }
            }
            match r {
                Ok(_) => {},
                Err(e) => {
                    return Err(e);
                },
            }
            i = i + 1;
        }
        Ok(t)
    }

    /// The record of what the node came to.
    fn record_of(&self, best: i32, best_move: i16, bound: Bound, depth: i32, ply: usize) -> (rec: Record)
        requires
            ply < 64,
            -INF <= best <= INF,
            bound != Bound::Upper ==> best <= MATE - ply,
            bound != Bound::Lower ==> best > -(MATE - ply),
        ensures
            rec.mv == best_move,
            rec.depth == depth,
            rec.score == node_relative(best as int, ply as int),
            bound_fits(rec.bound, rec.score as int),
            (rec.bound, rec.tainted) == fence_spec(
                bound,
                best as int,
                self.line.sub_min[ply as int] < ply,
            ),
    {
        let leans: bool = self.line.sub_min[ply] < ply as i32;
        let (stored, tainted) = fence(bound, best, leans);
        Record {
            mv: best_move,
            bound: stored,
            depth,
            score: to_table(best, ply),
            tainted,
            anc_lo: self.line.sub_anc_lo[ply],
            anc_hi: self.line.sub_anc_hi[ply],
        }
    }

    /// Counts what a fence did to a record.
    fn count_fenced(&mut self, rec: &Record, bound: Bound, ply: usize)
        requires
            old(self).at_node(ply as int),
        ensures
            final(self).at_node(ply as int),
            carried(*old(self), *final(self), 64),
            *final(self) == (AceSearch { stats: final(self).stats, ..*old(self) }),
    {
        reveal(AceSearch::ready);
        reveal(carried);
        if rec.tainted {
            self.stats.tainted_stores = self.stats.tainted_stores.saturating_add(1);
        } else if rec.bound != bound {
            if rec.bound == Bound::Lower {
                self.stats.fenced_lower = self.stats.fenced_lower.saturating_add(1);
            } else {
                self.stats.fenced_upper = self.stats.fenced_upper.saturating_add(1);
            }
        }
    }

    /// Stores a record under the keys of the position.
    fn put(&mut self, rec: Record, ply: usize)
        requires
            old(self).at_node(ply as int),
            bound_fits(rec.bound, rec.score as int),
        ensures
            final(self).at_node(ply as int),
            carried(*old(self), *final(self), 64),
            *final(self) == (AceSearch { tt: final(self).tt, ..*old(self) }),
            stored(
                old(self).tt,
                final(self).tt,
                old(self).g@.lo,
                old(self).g@.hi,
                rec,
                old(self).config.pure_mode,
            ),
    {
        reveal(AceSearch::ready);
        reveal(carried);
        store_entry(&mut self.tt, self.g.hash_lo, self.g.hash_hi, rec, self.config.pure_mode);
    }

    /// Stores what the node came to.
    fn keep<N: Fn(NetInput) -> i32>(
        &mut self,
        t: &Tried,
        best: i32,
        depth: i32,
        ply: usize,
        net: &N,
        Ghost(q): Ghost<Query>,
    )
        requires
            old(self).at_node(ply as int),
            ply < 63,
            t.best == Some(best),
            t.ok(old(self).g@, ply as int, q.alpha, q.beta),
            q.alpha < q.beta,
            ply == 0 ==> q.alpha <= MATE && q.beta >= -MATE,
            q.x.s == old(self).g@,
            q.x.ply == ply,
            q.x.depth == depth,
            q.v == best,
        ensures
            final(self).at_node(ply as int),
            carried(*old(self), *final(self), 64),
            final(self).root == old(self).root,
            vouched(*net, *old(self)) && search_score(*net, style_of(old(self).config), q) ==> vouched(
                *net,
                *final(self),
            ),
    {
        let ghost a = *self;
        let rec: Record = self.record_of(best, t.best_move, t.bound, depth, ply);
        self.count_fenced(&rec, t.bound, ply);
        let ghost a1 = *self;
        self.put(rec, ply);
        proof {
            lemma_carried(a, a1, *self, 64, 64);
            lemma_same_game(a, a1, 64);
            lemma_same_game(a, *self, 64);
            if vouched(*net, a) && search_score(*net, style_of(a.config), q) {
                lemma_put_vouched(*net, a1, *self, q, rec, t.bound, ply as int);
            }
        }
    }

    /// Counts an entry whose score was refused.
    fn count_refused(&mut self, ply: usize)
        requires
            old(self).at_node(ply as int),
        ensures
            final(self).at_node(ply as int),
            carried(*old(self), *final(self), 64),
            *final(self) == (AceSearch { stats: final(self).stats, ..*old(self) }),
    {
        reveal(AceSearch::ready);
        reveal(carried);
        self.stats.refused_cuts = self.stats.refused_cuts.saturating_add(1);
    }

    /// Ways to end a node without trying its moves: a position so good that no
    /// shallow search can fall below beta, or that even a pass holds beta.
    fn static_cut<N: Fn(NetInput) -> i32, R: Fn(Progress)>(
        &mut self,
        depth: i32,
        beta: i32,
        ply: usize,
        allow_null: bool,
        net: &N,
        report: &R,
        Ghost(alpha): Ghost<i32>,
    ) -> (r: Result<Option<i32>, TimeUp>)
        requires
            old(self).at_node(ply as int),
            ply < 63,
            1 <= depth <= MAX_DEPTH + ply,
            -INF < beta <= INF,
            on_path(*old(self), ply as int),
            !closed(node_at(*old(self), depth as int, ply as int)),
            tame(*net),
            listens(*report),
        ensures
            final(self).at_node(ply as int),
            carried(*old(self), *final(self), ply + 1),
            r matches Ok(Some(v)) ==> -INF <= v <= MATE - ply && v >= beta,
            r is Err ==> final(self).expired,
            final(self).root == old(self).root,
            vouched(*net, *old(self)) ==> vouched(*net, *final(self)),
            r matches Ok(Some(v)) ==> vouched(*net, *old(self)) ==> search_score(
                *net,
                style_of(old(self).config),
                asked(
                    *old(self),
                    depth as int,
                    alpha as int,
                    beta as int,
                    ply as int,
                    allow_null,
                    v as int,
                ),
            ),
        decreases 64 - ply, 1nat, 0nat,
    {
        let ghost a0 = *self;
        let ghost st = style_of(self.config);
        if depth <= 4 && beta > -2000 && beta < 2000 {
            let sev: i32 = self.value(depth, ply, net);
            proof {
                lemma_carried_less(a0, *self, ply + 1, 64);
                lemma_same_game(a0, *self, 64);
            }
            if sev - 90 * depth >= beta {
                proof {
                    let q = asked(
                        a0,
                        depth as int,
                        alpha as int,
                        beta as int,
                        ply as int,
                        allow_null,
                        sev as int,
                    );
                    assert(by_margin(*net, st, q));
                    lemma_open_score(*net, st, q);
                }
                return Ok(Some(sev));
            }
        } else {
            proof {
                lemma_carried_self(a0, ply + 1);
            }
        }
        let ghost a1 = *self;
        if allow_null && depth >= 3 && ply > 0 {
            proof {
                lemma_same_game(a0, a1, ply + 1);
            }
            let ev: i32 = self.value(depth, ply, net);
            let ghost a2 = *self;
            proof {
                lemma_carried(a0, a1, a2, ply + 1, 64);
                lemma_same_game(a0, a2, ply + 1);
                lemma_same_node(a0, a2, depth as int, ply as int, ply + 1);
            }
            if ev >= beta {
                let r: Result<Option<i32>, TimeUp> = self.null_try(depth, beta, ply, net, report);
                proof {
                    lemma_carried(a0, a2, *self, ply + 1, ply + 1);
                    if r matches Ok(Some(v)) && vouched(*net, a0) {
                        lemma_pass_scored(
                            *net,
                            a0,
                            a2,
                            depth as int,
                            alpha as int,
                            beta as int,
                            ply as int,
                            allow_null,
                            ev as int,
                        );
                    }
                }
                return r;
            }
        }
        Ok(None)
    }

    /// A node with depth left, from where the table is asked.
    fn inner_node<N: Fn(NetInput) -> i32, R: Fn(Progress)>(
        &mut self,
        depth: i32,
        alpha: i32,
        beta: i32,
        ply: usize,
        allow_null: bool,
        prev_move: i16,
        net: &N,
        report: &R,
    ) -> (r: Result<i32, TimeUp>)
        requires
            old(self).at_node(ply as int),
            window_ok(depth as int, alpha as int, beta as int, ply as int, prev_move as int),
            ply < 63,
            depth >= 1,
            on_path(*old(self), ply as int),
            !closed(node_at(*old(self), depth as int, ply as int)),
            tame(*net),
            listens(*report),
        ensures
            final(self).at_node(ply as int),
            carried(*old(self), *final(self), ply + 1),
            vouched(*net, *old(self)) ==> vouched(*net, *final(self)),
            r matches Ok(v) ==> vouched(*net, *old(self)) ==> {
                let q = asked(
                    *old(self),
                    depth as int,
                    alpha as int,
                    beta as int,
                    ply as int,
                    allow_null,
                    v as int,
                );
                &&& search_score(*net, style_of(old(self).config), q)
                &&& ply == 0 && alpha < v < beta ==> best_by_search(
                    *net,
                    style_of(old(self).config),
                    q,
                    final(self).root.best,
                )
            },
            r matches Ok(v) ==> -INF <= v <= INF && (v >= beta || v > -(MATE - ply)) && (v <= alpha
                || v <= MATE - ply),
            r matches Ok(v) ==> table_decides(
                *old(self),
                depth as int,
                alpha as int,
                beta as int,
                ply as int,
            ) || v >= beta || tops(*net, node_at(*old(self), depth as int, ply as int), v as int),
            r matches Ok(v) ==> (ply == 0 && !table_decides(
                *old(self),
                depth as int,
                alpha as int,
                beta as int,
                ply as int,
            ) && alpha < v < beta ==> root_backed(
                *net,
                node_at(*old(self), depth as int, 0),
                final(self).root,
                v as int,
            )),
            r is Err ==> final(self).expired,
            ply > 0 ==> final(self).root == old(self).root,
            root_ok(old(self).root, old(self).g@) ==> root_ok(final(self).root, old(self).g@),
            old(self).tt.find(old(self).g@.lo, old(self).g@.hi) matches Some(e) ==> (cutoff_spec(
                e,
                depth as int,
                ply as int,
                alpha as int,
                beta as int,
            ) matches Cutoff::Score(x) ==> r == Ok::<i32, TimeUp>(x)),
        decreases 64 - ply, 2nat, 0nat,
    {
        let ghost a0 = *self;
        let (tt_move, cut) = self.consult(depth, alpha, beta, ply);
        proof {
            lemma_carried_self(a0, ply + 1);
        }
        match cut {
            Cutoff::Score(v) => {
                proof {
                    if vouched(*net, a0) {
                        lemma_consulted(
                            *net,
                            a0,
                            depth as int,
                            alpha as int,
                            beta as int,
                            ply as int,
                            allow_null,
                            v,
                        );
                    }
                }
                return Ok(v);
            },
            Cutoff::Refused => {
                self.count_refused(ply);
                proof {
                    lemma_carried_less(a0, *self, ply + 1, 64);
                }
            },
            Cutoff::Nothing => {},
        }
        let ghost a1 = *self;
        proof {
            lemma_same_game(a0, a1, ply + 1);
            lemma_same_node(a0, a1, depth as int, ply as int, ply + 1);
        }
        let early: Result<Option<i32>, TimeUp> = self.static_cut(
            depth,
            beta,
            ply,
            allow_null,
            net,
            report,
            Ghost(alpha),
        );
        let ghost a2 = *self;
        let ghost x = node_at(a0, depth as int, ply as int);
        proof {
            lemma_carried(a0, a1, a2, ply + 1, ply + 1);
            lemma_same_node(a0, a2, depth as int, ply as int, ply + 1);
            lemma_same_game(a0, a2, ply + 1);
        }
        match early {
            Ok(Some(v)) => {
                return Ok(v);
            },
            Ok(None) => {},
            Err(e) => {
                return Err(e);
            },
        }
        let mut moves: [i16; 160] = [0i16; 160];
        let n: usize = self.ordered_moves(depth, ply, tt_move, prev_move, &mut moves);
        if n == 0 {
            let v: i32 = self.value(depth, ply, net);
            proof {
                lemma_same_game(a2, *self, 64);
                if vouched(*net, a0) {
                    let none = Tried {
                        alpha,
                        best: None,
                        best_move: self.root.best,
                        bound: Bound::Upper,
                        done: false,
                    };
                    let list = moves@.subrange(0, 0);
                    let q = asked(
                        a0,
                        depth as int,
                        alpha as int,
                        beta as int,
                        ply as int,
                        allow_null,
                        v as int,
                    );
                    let got = Seq::<Option<int>>::empty();
                    reveal(tracks);
                    assert(tracks(none, alpha as int, list, got));
                    assert(tried_through(
                        *net,
                        a2,
                        x,
                        none,
                        alpha as int,
                        beta as int,
                        tt_move,
                        list,
                    ));
                    lemma_run_scored(*net, a2, none, q, tt_move, list);
                }
                lemma_carried(a0, a2, *self, ply + 1, 64);
                assert forall|m: i16| !(#[trigger] counts(x, m)) by {
                    if counts(x, m) {
                        assert(listed(moves@, 0, m));
                    }
                }
            }
            return Ok(v);
        }
        let tried: Result<Tried, TimeUp> = self.try_moves(
            &moves,
            n,
            depth,
            alpha,
            beta,
            ply,
            tt_move,
            prev_move,
            net,
            report,
        );
        let ghost a3 = *self;
        proof {
            lemma_same_game(a0, a2, ply + 1);
            lemma_carried(a0, a2, a3, ply + 1, ply + 1);
        }
        proof {
            lemma_same_game(a0, a3, ply + 1);
        }
        let t: Tried = match tried {
            Ok(t) => t,
            Err(e) => {
                return Err(e);
            },
        };
        proof {
            lemma_tried_all(*net, x, t, moves@, n as int);
        }
        match t.best {
            Some(best) => {
                let ghost q = asked(
                    a0,
                    depth as int,
                    alpha as int,
                    beta as int,
                    ply as int,
                    allow_null,
                    best as int,
                );
                proof {
                    if vouched(*net, a0) {
                        lemma_run_scored(
                            *net,
                            a2,
                            t,
                            q,
                            tt_move,
                            moves@.subrange(0, n as int),
                        );
                    }
                }
                self.keep(&t, best, depth, ply, net, Ghost(q));
                proof {
                    lemma_carried(a0, a3, *self, ply + 1, 64);
                    lemma_same_game(a0, *self, ply + 1);
                }
                Ok(best)
            },
            None => {
                let v: i32 = self.value(depth, ply, net);
                proof {
                    lemma_carried(a0, a3, *self, ply + 1, 64);
                    lemma_same_game(a0, *self, ply + 1);
                    if vouched(*net, a0) {
                        let q = asked(
                            a0,
                            depth as int,
                            alpha as int,
                            beta as int,
                            ply as int,
                            allow_null,
                            v as int,
                        );
                        lemma_run_scored(
                            *net,
                            a2,
                            t,
                            q,
                            tt_move,
                            moves@.subrange(0, n as int),
                        );
                    }
                }
                Ok(v)
            },
        }
    }
}

} // verus!
