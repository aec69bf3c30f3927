//! Iterative deepening.

use vstd::prelude::*;

use crate::ace::backing::{
    arrives, counts, crowded, lemma_arrival_tops, opponent_home, replies, tops, Node,
};
use crate::ace::bridge::{hands_fit, TiBridge};
use crate::ace::certify::{legal_in, lemma_legal_playable};
use crate::ace::certmemo::{keyed_win, memo_key, race_taken, stm_wins_race, CertMemo};
use crate::ace::convert::{is_ace_move, to_board};
use crate::ace::eval::{tame, EvalMode, NetInput, MATE};
use crate::ace::game::{is_pawn_move, lemma_ace_unmake_restores, AceState, ACE_NO_MOVE};
use crate::ace::movelist::gen_moves;
use crate::ace::node::{halved, MAX_DEPTH};
use crate::ace::raceroot::{is_first_best, race_pick, race_score, table_worths};
use crate::ace::race::state_index;
use crate::ace::racecache::{keyed_race_value, table_for, wall_hi, wall_lo};
use crate::ace::score::{best_by_search, lemma_vouched_same, style_of, Query, Style};
use crate::ace::search::{
    carried, copy_log, lemma_carried, lemma_carried_self, lemma_same_game, listens, node_at, root_backed,
    root_ok, vouched, AceDepthLogEntry, AceSearch, Progress, Root, TimeUp, INF,
};
use crate::ace::table::{Bound, Table, TableEntry};
use crate::ace::think::ThinkResult;
use crate::util::clock::{whole_ms_spec, Deadline};
use crate::util::notation::{ace_to_algebraic, move_chars};

verus! {

/// Work of the check of a last wall.
pub const GATE_CERT_BUDGET: u64 = 60_000;

/// Depth of a search that is given none.
pub const DEFAULT_DEPTH: i32 = 30;

/// What the iterations have come to.
pub struct Found {
    pub best: i16,
    pub score: i32,
    pub depth: i32,
    /// Iterations in a row that confirmed the move.
    pub stable: u32,
    /// The best pawn move, -1 for none.
    pub pawn_best: i16,
    pub pawn_score: i32,
}

impl Found {
    /// The moves are legal and the scores in range.
    pub open spec fn ok(self, s: AceState) -> bool {
        &&& self.best == ACE_NO_MOVE || legal_in(s, self.best)
        &&& -MATE <= self.score <= MATE
        &&& self.pawn_best == -1 || (legal_in(s, self.pawn_best) && is_pawn_move(self.pawn_best))
        &&& self.pawn_best != -1 ==> -MATE <= self.pawn_score <= MATE
        &&& 0 <= self.depth
    }
}

/// Finished iterations: ever deeper, scores in range, a lost game scored so, and
/// a legal first move or none.
pub open spec fn log_ok(log: Seq<AceDepthLogEntry>, s: AceState, max_depth: int) -> bool {
    &&& forall|i: int, j: int|
        #![trigger log[i], log[j]]
        0 <= i < j < log.len() ==> log[i].depth < log[j].depth
    &&& forall|i: int|
        0 <= i < log.len() ==> 1 <= (#[trigger] log[i]).depth <= max_depth && -MATE
            <= log[i].score <= MATE && pv_ok(log[i].pv@, s) && (opponent_home(s) ==> log[i].score
            == -MATE)
}

/// Empty, or the name of a legal move.
pub open spec fn pv_ok(pv: Seq<char>, s: AceState) -> bool {
    ||| pv == Seq::<char>::empty()
    ||| exists|m: i16| #[trigger] legal_in(s, m) && pv == move_chars(to_board(m))
}

/// The name of a move, nothing where there is none.
pub open spec fn name_of(m: i16) -> Seq<char> {
    if m >= 0 {
        move_chars(to_board(m))
    } else {
        Seq::empty()
    }
}

/// Where to start: two short of a deep exact entry, with its score, or at one.
pub open spec fn resume_spec(pure_mode: bool, e: Option<TableEntry>) -> (int, int) {
    match e {
        Some(x) => if !pure_mode && x.depth >= 4 && x.bound == Bound::Exact {
            (x.depth - 2, x.score as int)
        } else {
            (1, 0)
        },
        None => (1, 0),
    }
}

/// The share of the time that may be used before another iteration, in percent.
pub fn time_percent(last_score: i32) -> (r: u64)
    ensures
        r == (if last_score < -80 {
            92u64
        } else {
            85
        }),
{
    if last_score < -80 {
        92
    } else {
        85
    }
}

/// Whether more than that share has passed.
pub fn over_share(elapsed_ms: u64, time_ms: u64, percent: u64) -> (r: bool)
    ensures
        r == (elapsed_ms * 100 > time_ms * percent),
{
    assert(time_ms * percent <= 0xFFFF_FFFF_FFFF_FFFF * 0xFFFF_FFFF_FFFF_FFFF) by (nonlinear_arith)
        requires
            time_ms <= 0xFFFF_FFFF_FFFF_FFFF,
            percent <= 0xFFFF_FFFF_FFFF_FFFF,
    ;
    elapsed_ms as u128 * 100 > time_ms as u128 * percent as u128
}

/// Whether too much of the time has passed for another iteration.
fn too_late(start: &Deadline, time_ms: u64, last_score: i32) -> (r: bool)
    ensures
        start.reading() matches Some(t) ==> r == (whole_ms_spec(t) * 100 > time_ms * (if last_score
            < -80 {
            92int
        } else {
            85
        })),
{
    over_share(start.elapsed_ms(), time_ms, time_percent(last_score))
}

/// A share of a time, in percent, rounded down.
pub fn share_of(time_ms: u64, percent: u64) -> (r: u64)
    requires
        percent <= 100,
    ensures
        r == time_ms * percent / 100,
        r <= time_ms,
{
    assert(time_ms * percent <= time_ms * 100) by (nonlinear_arith)
        requires
            percent <= 100,
    ;
    (time_ms as u128 * percent as u128 / 100) as u64
}

/// The time kept back for the check of a last wall: what a race table took to
/// build, at least 25 ms and 15 percent, at most 30 percent.
pub open spec fn reserve_spec(time_ms: int, build_ms: int) -> int {
    let a = if build_ms > 25 {
        build_ms
    } else {
        25
    };
    let b = if time_ms * 15 / 100 > a {
        time_ms * 15 / 100
    } else {
        a
    };
    if b < time_ms * 30 / 100 {
        b
    } else {
        time_ms * 30 / 100
    }
}

/// The time kept back for the check of a last wall.
pub fn gate_reserve(time_ms: u64, build_ms: u64) -> (r: u64)
    ensures
        r == reserve_spec(time_ms as int, build_ms as int),
        r <= time_ms,
{
    let mut r: u64 = build_ms;
    if r < 25 {
        r = 25;
    }
    let low: u64 = share_of(time_ms, 15);
    if r < low {
        r = low;
    }
    let cap: u64 = share_of(time_ms, 30);
    if r < cap {
        r
    } else {
        cap
    }
}

/// The time for the iterations: with one wall left in hand, and race tables in
/// use, less what the check of it may take.
pub open spec fn allotted_spec(a: AceSearch, time_ms: int) -> int {
    if a.config.eval.race_proof && !a.config.eval.cheap_cert && a.g@.wl(a.g@.turn) == 1 {
        time_ms - reserve_spec(time_ms, a.race.build_ms as int)
    } else {
        time_ms
    }
}

/// The table has a new generation and the history aged, unless the search is
/// pure or ponders.
pub open spec fn freshened(a: AceSearch, b: AceSearch) -> bool {
    if a.config.pure_mode || a.config.is_pondering {
        b.tt == a.tt && b.memory == a.memory
    } else {
        &&& b.tt == (Table {
            generation: if a.tt.generation == 255 {
                0
            } else {
                (a.tt.generation + 1) as u8
            },
            ..a.tt
        })
        &&& b.memory.history@ == halved(a.memory.history@)
    }
}

/// The generation of a search's entries: the next one, unless the search is
/// pure or ponders.
pub open spec fn generation_of(a: AceSearch) -> u8 {
    if a.config.pure_mode || a.config.is_pondering {
        a.tt.generation
    } else if a.tt.generation == 255 {
        0
    } else {
        (a.tt.generation + 1) as u8
    }
}

/// A score that ends the iterations: the game is won or lost.
pub open spec fn decided(score: int) -> bool {
    score > MATE - 200 || score < -(MATE - 200)
}

/// The last `n + 1` iterations, as far as there are so many, name one move.
pub open spec fn confirmed(log: Seq<AceDepthLogEntry>, n: int) -> bool {
    forall|j: int|
        #![trigger log[log.len() - 1 - j]]
        0 <= j <= n && j < log.len() ==> log[log.len() - 1 - j].pv@ == log.last().pv@
}

/// The last iteration ends the search early: the move is easy.
pub open spec fn easy(log: Seq<AceDepthLogEntry>, full: bool, elapsed_ms: int, time_ms: int) -> bool {
    &&& !full
    &&& log.last().depth >= 9
    &&& log.last().score > -120
    &&& confirmed(log, 3)
    &&& elapsed_ms * 100 > time_ms * 30
}

/// The log holds every depth from the first on, up to the limit or to the
/// first iteration that ends the search.
pub open spec fn runs_through(
    log: Seq<AceDepthLogEntry>,
    from: int,
    limit: int,
    full: bool,
    elapsed_ms: int,
    time_ms: int,
) -> bool {
    if from > limit {
        log.len() == 0
    } else {
        &&& log.len() > 0
        &&& forall|i: int| 0 <= i < log.len() ==> (#[trigger] log[i]).depth == from + i
        &&& forall|i: int| 0 <= i < log.len() - 1 ==> !decided((#[trigger] log[i]).score as int)
        &&& log.last().depth == limit || decided(log.last().score as int) || easy(
            log,
            full,
            elapsed_ms,
            time_ms,
        )
    }
}

/// What was found is what the last iteration says, unless part of a further one
/// counts.
pub open spec fn found_last(partial: bool, log: Seq<AceDepthLogEntry>, f: Found) -> bool {
    log.len() > 0 && (!partial || f.depth == log.last().depth) ==> {
        &&& f.depth == log.last().depth
        &&& f.score == log.last().score
        &&& name_of(f.best) == log.last().pv@
    }
}

/// The move and the score that follow from what was found: its own, but for a
/// last wall that does not pass and gives way to the best pawn move. Where it
/// holds no legal move, another one may take its place.
pub open spec fn concluded(a: AceSearch, f: Found, r: ThinkResult) -> bool {
    &&& r.depth == f.depth
    &&& if gated(a, f) {
        exists|keep: bool| #[trigger]
            gate_answer(a.config.eval.cert_eval_leaves_only, a.g@.after(f.best), keep) && if keep {
                r.score == f.score && (a.g@.winner_spec() == -1 ==> r.mv == f.best)
            } else {
                r.score == f.pawn_score && (a.g@.winner_spec() == -1 ==> r.mv == f.pawn_best)
            }
    } else {
        &&& r.score == f.score
        &&& a.g@.winner_spec() == -1 && legal_in(a.g@, f.best) ==> r.mv == f.best
    }
}

/// A clock that stands still before the budget and before the share of the
/// time at which no further iteration starts.
pub open spec fn unhurried(reading: Option<u128>, budget: int, time_ms: int) -> bool {
    reading matches Some(t) && t < budget * 1_000_000 && whole_ms_spec(t) * 100 <= time_ms
        * 85
}

/// What the check of a last wall says of the position after it: the race
/// decides where no walls are left; otherwise, unless certificates are for
/// leaves only, a certified win of the opponent is a refusal.
pub open spec fn gate_answer(leaves_only: bool, t: AceState, keep: bool) -> bool {
    if t.wl0 == 0 && t.wl1 == 0 {
        race_taken(t, !keep)
    } else if leaves_only {
        keep
    } else {
        !keep ==> keyed_win(memo_key(t, t.turn))
    }
}

/// What is remembered of the position after a last wall decides, where no clock
/// has to be asked: a certificate refuses the wall, and a failure that spent at
/// least as much lets it pass.
pub open spec fn gate_remembered(
    certs: CertMemo,
    leaves_only: bool,
    t: AceState,
    keep: bool,
) -> bool {
    let k = memo_key(t, t.turn);
    !(t.wl0 == 0 && t.wl1 == 0) && !leaves_only && certs.cache@.contains_key(k) && (certs.cache@[k]
        == 1 || GATE_CERT_BUDGET <= -certs.cache@[k]) ==> keep == (certs.cache@[k] != 1)
}

/// The root of a search.
pub open spec fn root_node(s: AceState, mode: EvalMode, depth: int) -> Node {
    Node { s, above: Seq::empty(), mode, depth, ply: 0 }
}

/// A legal move scores `v`, and its name is `name`.
pub open spec fn named_best<N: Fn(NetInput) -> i32>(
    net: N,
    x: Node,
    m: i16,
    v: int,
    name: Seq<char>,
) -> bool {
    legal_in(x.s, m) && (replies(net, x, m, -v) || crowded(x.s)) && name == move_chars(to_board(m))
}

/// A finished iteration, unless the game is over: no legal move scores more than
/// its score, and the move it names scores that.
pub open spec fn entry_backed<N: Fn(NetInput) -> i32>(
    net: N,
    mode: EvalMode,
    s: AceState,
    e: AceDepthLogEntry,
) -> bool {
    let x = root_node(s, mode, e.depth as int);
    &&& tops(net, x, e.score as int)
    &&& (exists|m: i16| #[trigger] counts(x, m)) ==> exists|m: i16| #[trigger]
        named_best(net, x, m, e.score as int, e.pv@)
}

/// All iterations of a log are backed.
pub open spec fn log_backed<N: Fn(NetInput) -> i32>(
    net: N,
    mode: EvalMode,
    s: AceState,
    log: Seq<AceDepthLogEntry>,
) -> bool {
    !opponent_home(s) ==> forall|i: int|
        0 <= i < log.len() ==> entry_backed(net, mode, s, #[trigger] log[i])
}

/// A search of the root to a depth, in a window that its score lies in, which
/// `best` attains.
pub open spec fn root_search<N: Fn(NetInput) -> i32>(
    net: N,
    st: Style,
    s: AceState,
    depth: int,
    alpha: int,
    beta: int,
    v: int,
    best: i16,
) -> bool {
    alpha < v < beta && best_by_search(
        net,
        st,
        Query { x: root_node(s, st.eval, depth), alpha, beta, pass_ok: true, v },
        best,
    )
}

/// A finished iteration: its score is one of a search to its depth, and the
/// move it names attains it.
pub open spec fn entry_searched<N: Fn(NetInput) -> i32>(
    net: N,
    st: Style,
    s: AceState,
    e: AceDepthLogEntry,
) -> bool {
    exists|alpha: int, beta: int, best: i16| #[trigger]
        root_search(net, st, s, e.depth as int, alpha, beta, e.score as int, best) && e.pv@
            == name_of(best)
}

/// All iterations of a log, unless the game is over.
pub open spec fn log_searched<N: Fn(NetInput) -> i32>(
    net: N,
    st: Style,
    s: AceState,
    log: Seq<AceDepthLogEntry>,
) -> bool {
    !opponent_home(s) ==> forall|i: int|
        0 <= i < log.len() ==> entry_searched(net, st, s, #[trigger] log[i])
}

/// One more iteration.
proof fn lemma_searched_more<N: Fn(NetInput) -> i32>(
    net: N,
    st: Style,
    s: AceState,
    log: Seq<AceDepthLogEntry>,
    e: AceDepthLogEntry,
)
    requires
        log_searched(net, st, s, log),
        !opponent_home(s) ==> entry_searched(net, st, s, e),
    ensures
        log_searched(net, st, s, log.push(e)),
{
    if !opponent_home(s) {
        assert forall|i: int| 0 <= i < log.push(e).len() implies entry_searched(
            net,
            st,
            s,
            #[trigger] log.push(e)[i],
        ) by {
            if i < log.len() {
                assert(log.push(e)[i] == log[i]);
            }
        }
    }
}

/// The side to move can arrive, where no game has ended before.
pub open spec fn can_arrive(s: AceState) -> bool {
    s.winner_spec() == -1 && !crowded(s) && exists|m: i16| #[trigger] arrives(s, m)
}

/// A search that can arrive says so and does.
pub open spec fn takes_win(s: AceState, mv: i16, score: int) -> bool {
    can_arrive(s) ==> score == MATE - 1 && arrives(s, mv)
}

/// What an iteration with the best score and a move for it comes to where the
/// side to move can arrive.
proof fn lemma_takes_win<N: Fn(NetInput) -> i32>(
    net: N,
    mode: EvalMode,
    s: AceState,
    depth: int,
    r: Root,
    v: int,
)
    requires
        !opponent_home(s) ==> tops(net, root_node(s, mode, depth), v) && root_backed(
            net,
            root_node(s, mode, depth),
            r,
            v,
        ),
    ensures
        takes_win(s, r.best, v),
{
    if can_arrive(s) {
        let x = root_node(s, mode, depth);
        let m = choose|m: i16| #[trigger] arrives(s, m);
        assert(counts(x, m));
        lemma_arrival_tops(net, x, m, r.best, v);
    }
}

impl AceSearch {
    /// The time for the iterations.
    fn allotted(&self, time_ms: u64) -> (r: u64)
        requires
            self.ready(0),
        ensures
            r == allotted_spec(*self, time_ms as int),
    {
        reveal(AceSearch::ready);
        if self.config.eval.race_proof && !self.config.eval.cheap_cert && self.g.wl[self.g.turn]
            == 1 {
            time_ms - gate_reserve(time_ms, self.race.build_ms)
        } else {
            time_ms
        }
    }

    /// A new generation, and ageing, for a search that counts.
    fn freshen(&mut self)
        requires
            old(self).ready(0),
        ensures
            final(self).ready(0),
            *final(self) == (AceSearch {
                tt: final(self).tt,
                memory: final(self).memory,
                ..*old(self)
            }),
            freshened(*old(self), *final(self)),
    {
        if !self.config.pure_mode && !self.config.is_pondering {
            self.advance_generation();
            proof {
                reveal(AceSearch::ready);
            }
            self.memory.age();
        }
    }

    /// Sets everything up for a search.
    fn begin(&mut self, start: &Deadline, time_ms: u64, log: bool, engine_label: &str)
        requires
            old(self).ready(0),
        ensures
            final(self).ready(0),
            final(self).g == old(self).g,
            final(self).config == old(self).config,
            final(self).nodes == 0,
            final(self).root == (Root {
                best: ACE_NO_MOVE,
                score: 0i32,
                pawn_best: -1i16,
                pawn_score: old(self).root.pawn_score,
            }),
            final(self).rp_demotions == old(self).rp_demotions,
            final(self).rp_root_solves == old(self).rp_root_solves,
            final(self).stream.log == log,
            final(self).stream.label@ == engine_label@,
            freshened(*old(self), *final(self)),
            final(self).deadline.budget() == allotted_spec(*old(self), time_ms as int),
            final(self).deadline.reading() == start.reading(),
    {
        let budget: u64 = self.allotted(time_ms);
        self.freshen();
        reveal(AceSearch::ready);
        self.deadline = start.with_budget(budget);
        self.expired = false;
        self.nodes = 0;
        self.root.best = ACE_NO_MOVE;
        self.root.score = 0;
        self.root.pawn_best = -1;
        self.race.start_search(time_ms);
        self.stream.restart(start, log, engine_label);
        if self.bridge.is_some() {
            self.bridge = Some(TiBridge::from_game(&self.g));
        }
    }

    /// Where to start.
    fn resume(&self) -> (r: (i32, i32))
        requires
            self.ready(0),
        ensures
            (r.0 as int, r.1 as int) == resume_spec(
                self.config.pure_mode,
                self.tt.find(self.g@.lo, self.g@.hi),
            ),
            r.0 >= 1,
            -MATE <= r.1 <= MATE,
    {
        reveal(AceSearch::ready);
        if !self.config.pure_mode {
            if let Some(e) = self.tt.probe(self.g.hash_lo, self.g.hash_hi) {
                if e.depth >= 4 {
                    match e.bound {
                        Bound::Exact => {
                            return (e.depth - 2, e.score);
                        },
                        _ => {},
                    }
                }
            }
        }
        (1, 0)
    }

    /// One iteration. From depth 4 on the window is narrow at first, unless the
    /// score is far off.
    fn iterate<N: Fn(NetInput) -> i32, R: Fn(Progress)>(
        &mut self,
        d: i32,
        center: i32,
        net: &N,
        report: &R,
    ) -> (r: Result<i32, TimeUp>)
        requires
            old(self).ready(0),
            1 <= d <= MAX_DEPTH,
            -MATE <= center <= MATE,
            root_ok(old(self).root, old(self).g@),
            tame(*net),
            listens(*report),
        ensures
            final(self).ready(0),
            carried(*old(self), *final(self), 0),
            root_ok(final(self).root, old(self).g@),
            r matches Ok(v) ==> -MATE <= v <= MATE && (opponent_home(old(self).g@) ==> v == -MATE),
            r matches Ok(v) ==> (!opponent_home(old(self).g@) ==> tops(
                *net,
                root_node(old(self).g@, old(self).config.eval, d as int),
                v as int,
            ) && root_backed(
                *net,
                root_node(old(self).g@, old(self).config.eval, d as int),
                final(self).root,
                v as int,
            )),
            r is Err ==> final(self).expired,
            old(self).deadline.on_time() ==> r is Ok,
            vouched(*net, *old(self)) ==> vouched(*net, *final(self)),
            r matches Ok(v) ==> vouched(*net, *old(self)) && !opponent_home(old(self).g@)
                ==> exists|alpha: int, beta: int| #[trigger]
                root_search(
                    *net,
                    style_of(old(self).config),
                    old(self).g@,
                    d as int,
                    alpha,
                    beta,
                    v as int,
                    final(self).root.best,
                ),
    {
        let ghost a0 = *self;
        let mut lo: i32 = -INF;
        let mut hi: i32 = INF;
        if d >= 4 && center > -2000 && center < 2000 {
            lo = center - 75;
            hi = center + 75;
        }
        proof {
            lemma_carried_self(a0, 0);
        }
        loop
            invariant
                self.ready(0),
                carried(a0, *self, 0),
                root_ok(self.root, a0.g@),
                vouched(*net, a0) ==> vouched(*net, *self),
                1 <= d <= MAX_DEPTH,
                -INF <= lo <= MATE,
                -MATE <= hi <= INF,
                lo < hi,
                tame(*net),
                listens(*report),
                *old(self) == a0,
            decreases (if lo > -INF {
                1int
            } else {
                0
            }) + (if hi < INF {
                1int
            } else {
                0
            }),
        {
            let ghost a1 = *self;
            proof {
                lemma_same_game(a0, a1, 0);
                assert(node_at(a1, d as int, 0) =~= root_node(a0.g@, a0.config.eval, d as int));
            }
            let res: Result<i32, TimeUp> = self.ab(d, lo, hi, 0, true, 0, net, report);
            proof {
                lemma_carried(a0, a1, *self, 0, 0);
                if let Ok(v) = res {
                    if vouched(*net, a0) && !opponent_home(a0.g@) && lo < v < hi {
                        assert(root_search(
                            *net,
                            style_of(a0.config),
                            a0.g@,
                            d as int,
                            lo as int,
                            hi as int,
                            v as int,
                            self.root.best,
                        ));
                    }
                }
            }
            match res {
                Ok(v) => {
                    if v <= lo {
                        lo = -INF;
                    } else if v >= hi {
                        hi = INF;
                    } else {
                        return Ok(v);
                    }
                },
                Err(e) => {
                    return Err(e);
                },
            }
        }
    }

    /// Sets up what an iteration reports and resets the best pawn move.
    fn open_iteration(&mut self, d: i32, score: i32, root_empty: bool)
        requires
            old(self).ready(0),
            root_ok(old(self).root, old(self).g@),
        ensures
            final(self).ready(0),
            carried(*old(self), *final(self), 0),
            root_ok(final(self).root, final(self).g@),
            final(self).root == (Root { pawn_best: -1i16, pawn_score: i32::MIN, ..old(self).root }),
            final(self).nodes == old(self).nodes,
            final(self).g == old(self).g,
            final(self).race.build_ok == (root_empty || d >= 6),
            final(self).tt == old(self).tt,
    {
        reveal(AceSearch::ready);
        reveal(carried);
        self.race.build_ok = root_empty || d >= 6;
        self.root.pawn_best = -1;
        self.root.pawn_score = i32::MIN;
        self.stream.root_score = score;
        self.stream.search_depth = d;
    }

    /// Reports the state after an iteration.
    fn tell<R: Fn(Progress)>(&mut self, log: &Vec<AceDepthLogEntry>, d: i32, score: i32, report: &R)
        requires
            old(self).ready(0),
            listens(*report),
        ensures
            final(self).ready(0),
            carried(*old(self), *final(self), 0),
            *final(self) == (AceSearch { stream: final(self).stream, ..*old(self) }),
            old(self).stream.log ==> final(self).stream.depth_log@ == log@
                && final(self).stream.search_depth == d && final(self).stream.root_score == score,
    {
        reveal(AceSearch::ready);
        reveal(carried);
        if self.stream.log {
            self.stream.depth_log = copy_log(log);
            self.stream.search_depth = d;
            self.stream.root_score = score;
            self.stream.emit(&self.g, self.nodes, true, report);
        }
    }

    /// Whether the position after a last wall leaves it standing.
    fn stands(&mut self, time_ms: u64) -> (keep: bool)
        requires
            old(self).g.wf(),
            hands_fit(old(self).g@),
            old(self).g@.hist.len() < i32::MAX - 1000,
            old(self).certs.wf(),
        ensures
            final(self).g.wf(),
            final(self).g@ == old(self).g@,
            final(self).certs.wf(),
            *final(self) == (AceSearch {
                g: final(self).g,
                certs: final(self).certs,
                ..*old(self)
            }),
            gate_answer(old(self).config.eval.cert_eval_leaves_only, old(self).g@, keep),
            gate_remembered(
                old(self).certs,
                old(self).config.eval.cert_eval_leaves_only,
                old(self).g@,
                keep,
            ),
    {
        if self.g.wl[0] == 0 && self.g.wl[1] == 0 {
            !stm_wins_race(&mut self.g)
        } else if self.config.eval.cert_eval_leaves_only {
            true
        } else {
            let mut ms: u64 = share_of(time_ms, 15);
            if ms < 25 {
                ms = 25;
            }
            let side: usize = self.g.turn;
            !self.certs.cert_win(&mut self.g, side, GATE_CERT_BUDGET, ms)
        }
    }

    /// Whether a last wall may be played.
    fn wall_passes(&mut self, m: i16, time_ms: u64) -> (keep: bool)
        requires
            old(self).ready(0),
            legal_in(old(self).g@, m),
        ensures
            final(self).ready(0),
            final(self).g@ == old(self).g@,
            final(self).config == old(self).config,
            final(self).root == old(self).root,
            final(self).nodes == old(self).nodes,
            final(self).deadline == old(self).deadline,
            final(self).tt == old(self).tt,
            gate_answer(
                old(self).config.eval.cert_eval_leaves_only,
                old(self).g@.after(m),
                keep,
            ),
            gate_remembered(
                old(self).certs,
                old(self).config.eval.cert_eval_leaves_only,
                old(self).g@.after(m),
                keep,
            ),
    {
        reveal(AceSearch::ready);
        let ghost s = self.g@;
        proof {
            lemma_legal_playable(s, m);
            lemma_ace_unmake_restores(s, m);
        }
        self.g.make_move(m);
        let keep: bool = self.stands(time_ms);
        self.g.unmake_move();
        self.fields.invalidate();
        keep
    }
}

impl AceSearch {
    /// Takes over the best pawn move of an iteration, if it has one.
    fn note_found(&self, f: &mut Found)
        requires
            root_ok(self.root, self.g@),
            old(f).ok(self.g@),
        ensures
            final(f).ok(self.g@),
            *final(f) == (if self.root.pawn_best >= 0 {
                Found {
                    pawn_best: self.root.pawn_best,
                    pawn_score: self.root.pawn_score,
                    ..*old(f)
                }
            } else {
                *old(f)
            }),
    {
        if self.root.pawn_best >= 0 {
            f.pawn_best = self.root.pawn_best;
            f.pawn_score = self.root.pawn_score;
        }
    }

    /// The name of the move that leads, or nothing.
    fn leader(&self) -> (r: String)
        requires
            root_ok(self.root, self.g@),
        ensures
            pv_ok(r@, self.g@),
            r@ == name_of(self.root.best),
    {
        if self.root.best >= 0 {
            proof {
                lemma_legal_is_move(self.g@, self.root.best);
            }
            ace_to_algebraic(self.root.best)
        } else {
            String::new()
        }
    }

    /// One iteration and what follows from it. Returns whether it was the last.
    fn step<N: Fn(NetInput) -> i32, R: Fn(Progress)>(
        &mut self,
        d: i32,
        start: &Deadline,
        time_ms: u64,
        full: bool,
        f: &mut Found,
        log: &mut Vec<AceDepthLogEntry>,
        net: &N,
        report: &R,
    ) -> (stop: bool)
        requires
            old(self).ready(0),
            root_ok(old(self).root, old(self).g@),
            1 <= d <= MAX_DEPTH,
            old(f).ok(old(self).g@),
            old(f).stable < d,
            log_ok(old(log)@, old(self).g@, d - 1),
            log_backed(*net, old(self).config.eval, old(self).g@, old(log)@),
            confirmed(old(log)@, old(f).stable as int),
            old(log)@.len() > 0 ==> old(log)@.last().pv@ == name_of(old(f).best),
            tame(*net),
            listens(*report),
        ensures
            vouched(*net, *old(self)) ==> vouched(*net, *final(self)),
            vouched(*net, *old(self)) && log_searched(
                *net,
                style_of(old(self).config),
                old(self).g@,
                old(log)@,
            ) ==> log_searched(*net, style_of(old(self).config), old(self).g@, final(log)@),
            final(self).ready(0),
            carried(*old(self), *final(self), 0),
            root_ok(final(self).root, old(self).g@),
            final(f).ok(old(self).g@),
            final(f).stable <= d,
            final(f).depth == d || *final(f) == *old(f),
            log_ok(final(log)@, old(self).g@, d as int),
            final(log)@ == old(log)@ || (final(log)@ == old(log)@.push(final(log)@.last())
                && final(log)@.last().depth == d && final(log)@.last().score == final(f).score
                && final(f).depth == d),
            final(log)@.len() == old(log)@.len() ==> stop,
            log_backed(*net, old(self).config.eval, old(self).g@, final(log)@),
            final(log)@.len() > old(log)@.len() ==> takes_win(
                old(self).g@,
                final(f).best,
                final(f).score as int,
            ) && (can_arrive(old(self).g@) ==> stop),
            opponent_home(old(self).g@) && final(log)@.len() > old(log)@.len() ==> stop
                && final(f).score == -MATE,
            old(self).deadline.on_time() ==> final(log)@.len() > old(log)@.len(),
            final(log)@.len() > old(log)@.len() ==> final(log)@.last().pv@ == name_of(
                final(f).best,
            ),
            final(log)@.len() == old(log)@.len() && !old(self).config.use_partial_iter
                ==> *final(f) == *old(f),
            !stop ==> confirmed(final(log)@, final(f).stable as int) && !decided(
                final(log)@.last().score as int,
            ),
            start.reading() matches Some(t) ==> (stop && final(log)@.len() > old(log)@.len()
                ==> decided(final(log)@.last().score as int) || easy(
                final(log)@,
                full,
                whole_ms_spec(t) as int,
                time_ms as int,
            )),
    {
        let ghost a0 = *self;
        let ghost s = self.g@;
        let root_empty: bool = self.empty_race();
        self.open_iteration(d, f.score, root_empty);
        let nodes_before: u64 = self.nodes;
        let ghost a1 = *self;
        proof {
            lemma_same_game(a0, a1, 0);
        }
        let res: Result<i32, TimeUp> = self.iterate(d, f.score, net, report);
        let ghost a2 = *self;
        proof {
            lemma_carried(a0, a1, a2, 0, 0);
            lemma_same_game(a0, a2, 0);
        }
        match res {
            Ok(v) => {
                if self.root.best == f.best {
                    f.stable = f.stable + 1;
                } else {
                    f.stable = 0;
                }
                f.best = self.root.best;
                f.score = v;
                f.depth = d;
                self.note_found(f);
                let e: AceDepthLogEntry = AceDepthLogEntry {
                    depth: d,
                    score: v,
                    nodes: self.nodes,
                    elapsed_ms: start.elapsed_ms(),
                    marginal_nodes: self.nodes.saturating_sub(nodes_before),
                    pv: self.leader(),
                };
                proof {
                    lemma_takes_win(*net, a1.config.eval, s, d as int, self.root, v as int);
                    if vouched(*net, a0) && log_searched(*net, style_of(a0.config), s, log@) {
                        if !opponent_home(s) {
                            let (al, be) = choose|al: int, be: int| #[trigger]
                                root_search(
                                    *net,
                                    style_of(a0.config),
                                    s,
                                    d as int,
                                    al,
                                    be,
                                    v as int,
                                    self.root.best,
                                );
                            assert(root_search(
                                *net,
                                style_of(a0.config),
                                s,
                                e.depth as int,
                                al,
                                be,
                                e.score as int,
                                self.root.best,
                            ));
                            assert(entry_searched(*net, style_of(a0.config), s, e));
                        }
                        lemma_searched_more(*net, style_of(a0.config), s, log@, e);
                    }
                    lemma_log_more(*net, a1.config.eval, s, log@, e, self.root);
                }
                let ghost log0 = log@;
                log.push(e);
                proof {
                    lemma_confirmed_more(log0, e, old(f).stable as int, f.stable as int);
                }
                self.tell(log, d, v, report);
                proof {
                    lemma_carried(a0, a2, *self, 0, 0);
                }
                if v > MATE - 200 || v < -(MATE - 200) {
                    return true;
                }
                !full && d >= 9 && f.stable >= 3 && v > -120 && over_share(
                    start.elapsed_ms(),
                    time_ms,
                    30,
                )
            },
            Err(_) => {
                if self.config.use_partial_iter && self.root.best >= 0 {
                    f.best = self.root.best;
                    f.score = self.root.score;
                    f.depth = d;
                    self.note_found(f);
                }
                true
            },
        }
    }

    /// Whether no walls are left and race tables are in use.
    fn empty_race(&self) -> (r: bool)
        requires
            self.ready(0),
        ensures
            r == (self.config.eval.race_proof && self.g@.wl0 == 0 && self.g@.wl1 == 0),
    {
        reveal(AceSearch::ready);
        self.config.eval.race_proof && self.g.wl[0] == 0 && self.g.wl[1] == 0
    }

    /// Ever deeper, until the time, the depth or the question is used up.
    fn deepen<N: Fn(NetInput) -> i32, R: Fn(Progress)>(
        &mut self,
        start: &Deadline,
        time_ms: u64,
        from: (i32, i32),
        max_depth: i32,
        full: bool,
        log: &mut Vec<AceDepthLogEntry>,
        net: &N,
        report: &R,
    ) -> (f: Found)
        requires
            old(self).ready(0),
            root_ok(old(self).root, old(self).g@),
            from.0 >= 1,
            -MATE <= from.1 <= MATE,
            1 <= max_depth <= MAX_DEPTH,
            old(log)@.len() == 0,
            tame(*net),
            listens(*report),
        ensures
            final(self).ready(0),
            carried(*old(self), *final(self), 0),
            f.ok(old(self).g@),
            f.depth <= max_depth,
            log_ok(final(log)@, old(self).g@, max_depth as int),
            forall|i: int|
                0 <= i < final(log)@.len() ==> from.0 <= (#[trigger] final(log)@[i]).depth
                    <= f.depth,
            f.depth == 0 ==> f.best == ACE_NO_MOVE && f.score == from.1 && final(log)@.len() == 0,
            opponent_home(old(self).g@) && final(log)@.len() > 0 ==> f.score == -MATE,
            log_backed(*net, old(self).config.eval, old(self).g@, final(log)@),
            final(log)@.len() > 0 ==> takes_win(old(self).g@, f.best, f.score as int),
            found_last(old(self).config.use_partial_iter, final(log)@, f),
            vouched(*net, *old(self)) ==> vouched(*net, *final(self)) && log_searched(
                *net,
                style_of(old(self).config),
                old(self).g@,
                final(log)@,
            ),
            old(self).deadline.reading() == start.reading() && unhurried(start.reading(),
                old(self).deadline.budget() as int,
                time_ms as int,
            ) ==> runs_through(
                final(log)@,
                from.0 as int,
                max_depth as int,
                full,
                whole_ms_spec(start.reading()->0) as int,
                time_ms as int,
            ),
            old(self).deadline.reading() is Some && old(self).deadline.reading()->0
                >= old(self).deadline.budget() * 1_000_000 ==> final(log)@.len() == 0 && f.depth
                == 0 && *final(self) == *old(self),
    {
        let ghost a0 = *self;
        let ghost calm = a0.deadline.reading() == start.reading() && unhurried(start.reading(),
            a0.deadline.budget() as int,
            time_ms as int,
        );
        let ghost late = a0.deadline.reading() is Some && a0.deadline.reading()->0
            >= a0.deadline.budget() * 1_000_000;
        let ghost ms = whole_ms_spec(start.reading()->0) as int;
        let mut f: Found = Found {
            best: ACE_NO_MOVE,
            score: from.1,
            depth: 0,
            stable: 0,
            pawn_best: -1,
            pawn_score: i32::MIN,
        };
        let mut d: i32 = from.0;
        proof {
            lemma_carried_self(a0, 0);
        }
        while d <= max_depth
            invariant_except_break
                opponent_home(a0.g@) ==> log@.len() == 0,
                can_arrive(a0.g@) ==> log@.len() == 0,
                f.depth < d,
                confirmed(log@, f.stable as int),
                log@.len() > 0 ==> log@.last().pv@ == name_of(f.best),
                calm ==> log@.len() == d - from.0,
                calm ==> forall|i: int|
                    0 <= i < log@.len() ==> !decided((#[trigger] log@[i]).score as int),
            invariant
                calm == (a0.deadline.reading() == start.reading() && unhurried(start.reading(),
                    a0.deadline.budget() as int,
                    time_ms as int,
                )),
                late == (a0.deadline.reading() is Some && a0.deadline.reading()->0
                    >= a0.deadline.budget() * 1_000_000),
                ms == whole_ms_spec(start.reading()->0),
                late ==> log@.len() == 0 && f.depth == 0 && *self == a0,
                calm ==> forall|i: int|
                    0 <= i < log@.len() ==> (#[trigger] log@[i]).depth == from.0 + i,
                self.ready(0),
                carried(a0, *self, 0),
                *old(self) == a0,
                root_ok(self.root, a0.g@),
                1 <= from.0 <= d,
                max_depth <= MAX_DEPTH,
                f.ok(a0.g@),
                f.depth <= max_depth,
                f.stable < d,
                log_ok(log@, a0.g@, d - 1),
                log_ok(log@, a0.g@, max_depth as int),
                forall|i: int|
                    0 <= i < log@.len() ==> from.0 <= (#[trigger] log@[i]).depth <= f.depth,
                f.depth == 0 ==> f.best == ACE_NO_MOVE && f.score == from.1 && log@.len() == 0,
                log_backed(*net, a0.config.eval, a0.g@, log@),
                found_last(a0.config.use_partial_iter, log@, f),
                vouched(*net, a0) ==> vouched(*net, *self) && log_searched(
                    *net,
                    style_of(a0.config),
                    a0.g@,
                    log@,
                ),
                tame(*net),
                listens(*report),
            ensures
                opponent_home(a0.g@) && log@.len() > 0 ==> f.score == -MATE,
                log@.len() > 0 ==> takes_win(a0.g@, f.best, f.score as int),
                calm ==> runs_through(
                    log@,
                    from.0 as int,
                    max_depth as int,
                    full,
                    ms,
                    time_ms as int,
                ),
            decreases max_depth + 1 - d,
        {
            if d > 1 && too_late(start, time_ms, f.score) {
                break;
            }
            let ghost a1 = *self;
            proof {
                lemma_same_game(a0, a1, 0);
            }
            if self.deadline.used_up() {
                break;
            }
            let stop: bool = self.step(d, start, time_ms, full, &mut f, log, net, report);
            proof {
                lemma_carried(a0, a1, *self, 0, 0);
            }
            d = d + 1;
            if stop {
                break;
            }
            if too_late(start, time_ms, f.score) {
                break;
            }
        }
        f
    }
}

/// One more iteration with the same move, or with another.
proof fn lemma_confirmed_more(
    log: Seq<AceDepthLogEntry>,
    e: AceDepthLogEntry,
    before: int,
    after: int,
)
    requires
        confirmed(log, before),
        after == 0 || (after == before + 1 && (log.len() > 0 ==> log.last().pv@ == e.pv@)),
    ensures
        confirmed(log.push(e), after),
{
    let more = log.push(e);
    assert forall|j: int|
        #![trigger more[more.len() - 1 - j]]
        0 <= j <= after && j < more.len() implies more[more.len() - 1 - j].pv@ == more.last().pv@ by {
        if j > 0 {
            assert(more[more.len() - 1 - j] == log[log.len() - 1 - (j - 1)]);
        }
    }
}

/// One more iteration.
proof fn lemma_log_more<N: Fn(NetInput) -> i32>(
    net: N,
    mode: EvalMode,
    s: AceState,
    log: Seq<AceDepthLogEntry>,
    e: AceDepthLogEntry,
    r: Root,
)
    requires
        log_backed(net, mode, s, log),
        !opponent_home(s) ==> tops(net, root_node(s, mode, e.depth as int), e.score as int)
            && root_backed(net, root_node(s, mode, e.depth as int), r, e.score as int),
        r.best >= 0 ==> e.pv@ == move_chars(to_board(r.best)),
    ensures
        log_backed(net, mode, s, log.push(e)),
{
    if !opponent_home(s) {
        let x = root_node(s, mode, e.depth as int);
        if exists|m: i16| #[trigger] counts(x, m) {
            lemma_legal_is_move(s, r.best);
            assert(named_best(net, x, r.best, e.score as int, e.pv@));
        }
        assert(entry_backed(net, mode, s, e));
        assert forall|i: int| 0 <= i < log.push(e).len() implies entry_backed(
            net,
            mode,
            s,
            #[trigger] log.push(e)[i],
        ) by {
            if i < log.len() {
                assert(log.push(e)[i] == log[i]);
            }
        }
    }
}

/// A legal move is a move.
proof fn lemma_legal_is_move(s: AceState, m: i16)
    requires
        legal_in(s, m),
    ensures
        is_ace_move(m),
{
}

/// A last wall would be played, there is a pawn move to play in its place, and
/// nothing is decided yet.
pub open spec fn gated(a: AceSearch, f: Found) -> bool {
    &&& a.config.eval.race_proof
    &&& f.best >= 100
    &&& a.g@.wl(a.g@.turn) == 1
    &&& f.pawn_best >= 0
    &&& f.score < MATE - 200
    &&& f.pawn_score > -(MATE - 200)
}

/// The outcome of a search: a legal move unless there is none, a score in
/// range, the distances of both players and the iterations.
pub open spec fn thought(r: ThinkResult, s: AceState, max_depth: int) -> bool {
    &&& r.mv == ACE_NO_MOVE || legal_in(s, r.mv)
    &&& s.winner_spec() == -1 && r.mv == ACE_NO_MOVE ==> forall|m: i16|
        !(#[trigger] legal_in(s, m))
    &&& -MATE <= r.score <= MATE
    &&& r.white_dist == s.goal_dist(0)
    &&& r.black_dist == s.goal_dist(1)
    &&& log_ok(r.depth_log@, s, max_depth)
}

/// The depth that a search is given, or the default.
pub open spec fn depth_limit(max_depth: int) -> int {
    if max_depth > 0 {
        max_depth
    } else {
        DEFAULT_DEPTH as int
    }
}

/// How a search goes by its clock, given what the clock reads where it stands
/// still and the time on it. The move and the score follow from what the
/// iterations found. The iterations get the time allotted and
/// the table its generation. Of a clock that stands still: before the limits,
/// the log runs through; past the budget, nothing is searched and nothing but
/// the start of the search shows.
pub open spec fn searched(
    a: AceSearch,
    b: AceSearch,
    reading: Option<u128>,
    time_ms: int,
    max_depth: int,
    full: bool,
    r: ThinkResult,
) -> bool {
    let allotted = allotted_spec(a, time_ms);
    let from = resume_spec(a.config.pure_mode, a.tt.find(a.g@.lo, a.g@.hi)).0;
    &&& exists|f: Found| #[trigger]
        concluded(a, f, r) && f.ok(a.g@) && found_last(a.config.use_partial_iter, r.depth_log@, f)
    &&& b.deadline.budget() == allotted
    &&& b.deadline.reading() == reading
    &&& b.tt.generation == generation_of(a)
    &&& unhurried(reading, allotted, time_ms) ==> runs_through(
        r.depth_log@,
        from,
        depth_limit(max_depth),
        full,
        whole_ms_spec(reading->0) as int,
        time_ms,
    )
    &&& reading matches Some(t) ==> r.ms == whole_ms_spec(t)
    &&& reading is Some && reading->0 >= allotted * 1_000_000
        ==> r.depth_log@.len() == 0 && r.depth == 0 && r.nodes == 0 && freshened(a, b)
}

/// The outcome of a race that the classifier and the solver settle.
pub open spec fn race_result(r: ThinkResult, s: AceState) -> bool {
    exists|v: int| #[trigger]
        race_pick(s, r.mv, v) && r.score == race_score(v) && r.depth == 99 && r.nodes
            == s.pawn_cells().len() && r.depth_log@.len() == 0
}

/// The outcome of a race by the table of its walls: the move is the best by the
/// table and its worth the value of the position.
pub open spec fn table_result(r: ThinkResult, s: AceState) -> bool {
    exists|t: Seq<i16>, k: int, v: int|
        #![trigger is_first_best(table_worths(t, s), k), race_score(v)]
        table_for(t, wall_lo(s.h, s.v), wall_hi(s.h, s.v)) && is_first_best(table_worths(t, s), k)
            && r.mv == s.pawn_cells()[k] && table_worths(t, s)[k] == Some(v) && v != 0 && v == t[
            state_index(s.p0, s.p1, s.turn)] && keyed_race_value(s, v) && r.score == race_score(v)
            && r.depth
            == 99 && r.nodes == s.pawn_cells().len() && r.depth_log@.len() == 0
}

impl AceSearch {
    /// Replaces a last wall that does not pass by the best pawn move.
    fn gate(&mut self, f: &mut Found, time_ms: u64)
        requires
            old(self).ready(0),
            old(f).ok(old(self).g@),
        ensures
            final(self).ready(0),
            final(self).g@ == old(self).g@,
            final(self).config == old(self).config,
            final(self).nodes == old(self).nodes,
            final(self).deadline == old(self).deadline,
            final(self).tt == old(self).tt,
            final(f).ok(old(self).g@),
            final(f).depth == old(f).depth,
            !gated(*old(self), *old(f)) ==> *final(f) == *old(f) && *final(self) == *old(self),
            gated(*old(self), *old(f)) ==> exists|keep: bool| #[trigger]
                gate_answer(
                    old(self).config.eval.cert_eval_leaves_only,
                    old(self).g@.after(old(f).best),
                    keep,
                ) && gate_remembered(
                    old(self).certs,
                    old(self).config.eval.cert_eval_leaves_only,
                    old(self).g@.after(old(f).best),
                    keep,
                ) && *final(f) == (if keep {
                    *old(f)
                } else {
                    Found { best: old(f).pawn_best, score: old(f).pawn_score, ..*old(f) }
                }),
    {
        proof {
            reveal(AceSearch::ready);
        }
        if self.config.eval.race_proof && f.best >= 100 && self.g.wl[self.g.turn] == 1
            && f.pawn_best >= 0 && f.score < MATE - 200 && f.pawn_score > -(MATE - 200) {
            let keep: bool = self.wall_passes(f.best, time_ms);
            if !keep {
                self.rp_demotions = self.rp_demotions.saturating_add(1);
                f.best = f.pawn_best;
                f.score = f.pawn_score;
            }
        }
    }

    /// The move if it is legal, otherwise the first legal move in order, if
    /// there is one.
    fn guard(&self, m: i16) -> (r: i16)
        requires
            self.at_node(0),
        ensures
            r == ACE_NO_MOVE || legal_in(self.g@, r),
            self.g@.winner_spec() == -1 && legal_in(self.g@, m) ==> r == m,
            self.g@.winner_spec() == -1 && r == ACE_NO_MOVE ==> forall|x: i16|
                !(#[trigger] legal_in(self.g@, x)),
    {
        proof {
            reveal(AceSearch::ready);
        }
        let mut legal: [i16; 160] = [0i16; 160];
        let n: usize = gen_moves(&self.g, &self.bridge, self.config.gen, 0, 1, m, &mut legal);
        let mut i: usize = 0;
        while i < n
            invariant
                i <= n <= 160,
                forall|j: int| 0 <= j < n ==> legal_in(self.g@, #[trigger] legal[j]),
                forall|j: int| 0 <= j < i ==> #[trigger] legal[j] != m,
            decreases n - i,
        {
            if legal[i] == m {
                return m;
            }
            i += 1;
        }
        let k: usize = self.ordered_moves(1, 0, 0, 0, &mut legal);
        if k > 0 {
            legal[0]
        } else {
            ACE_NO_MOVE
        }
    }

    /// The distances of both players.
    pub(crate) fn both_dists(&self) -> (r: (u8, u8))
        requires
            self.at_node(0),
        ensures
            r.0 == self.g@.goal_dist(0),
            r.1 == self.g@.goal_dist(1),
    {
        reveal(AceSearch::ready);
        (self.fields.field(0)[self.g.pawn[0]], self.fields.field(1)[self.g.pawn[1]])
    }

    /// Iterative deepening within the budget of a clock. `full` leaves out the early stop
    /// on easy moves.
    pub(crate) fn think_search<N: Fn(NetInput) -> i32, R: Fn(Progress)>(
        &mut self,
        start: &Deadline,
        max_depth: i32,
        full: bool,
        log: bool,
        engine_label: &str,
        net: &N,
        report: &R,
    ) -> (r: ThinkResult)
        requires
            old(self).ready(0),
            max_depth <= MAX_DEPTH,
            tame(*net),
            listens(*report),
        ensures
            final(self).ready(0),
            final(self).g@ == old(self).g@,
            final(self).config == old(self).config,
            thought(r, old(self).g@, depth_limit(max_depth as int)),
            0 <= r.depth <= depth_limit(max_depth as int),
            r.depth == 0 ==> r.score == resume_spec(
                old(self).config.pure_mode,
                old(self).tt.find(old(self).g@.lo, old(self).g@.hi),
            ).1,
            log_backed(*net, old(self).config.eval, old(self).g@, r.depth_log@),
            vouched(*net, *old(self)) ==> vouched(*net, *final(self)) && log_searched(
                *net,
                style_of(old(self).config),
                old(self).g@,
                r.depth_log@,
            ),
            r.depth_log@.len() > 0 ==> takes_win(old(self).g@, r.mv, r.score as int),
            searched(
                *old(self),
                *final(self),
                start.reading(),
                start.budget() as int,
                max_depth as int,
                full,
                r,
            ),
    {
        let ghost s = self.g@;
        let ghost a0 = *self;
        let time_ms: u64 = start.budget_ms();
        self.begin(start, time_ms, log, engine_label);
        proof {
            lemma_same_answers(a0, *self, s.lo, s.hi);
            if vouched(*net, a0) {
                assert forall|lo: u32, hi: u32|
                    (#[trigger] self.tt.find(lo, hi)) is Some implies self.tt.find(lo, hi)
                    == a0.tt.find(lo, hi) by {
                    lemma_same_answers(a0, *self, lo, hi);
                }
                lemma_vouched_same(*net, style_of(a0.config), a0.tt, self.tt);
            }
        }
        let mut depth_log: Vec<AceDepthLogEntry> = Vec::new();
        let limit: i32 = if max_depth > 0 {
            max_depth
        } else {
            DEFAULT_DEPTH
        };
        let from: (i32, i32) = self.resume();
        let ghost a1 = *self;
        let mut f: Found = self.deepen(
            start,
            time_ms,
            from,
            limit,
            full,
            &mut depth_log,
            net,
            report,
        );
        proof {
            lemma_same_game(a1, *self, 0);
        }
        let ghost f1 = f;
        let ghost a3 = *self;
        self.gate(&mut f, time_ms);
        self.settle_in(0);
        f.best = self.guard(f.best);
        let (white_dist, black_dist) = self.both_dists();
        let ms: u64 = start.elapsed_ms();
        let ghost a2 = *self;
        self.tell(&depth_log, f.depth, f.score, report);
        proof {
            lemma_same_game(a2, *self, 0);
        }
        let r: ThinkResult = ThinkResult {
            mv: f.best,
            score: f.score,
            depth: f.depth,
            nodes: self.nodes,
            ms,
            white_dist,
            black_dist,
            depth_log,
        };
        proof {
            assert(gated(a3, f1) == gated(a0, f1));
            assert(concluded(a0, f1, r));
        }
        r
    }
}

/// A new generation changes no answer of the table.
proof fn lemma_same_answers(a: AceSearch, b: AceSearch, lo: u32, hi: u32)
    requires
        freshened(a, b),
    ensures
        b.tt.find(lo, hi) == a.tt.find(lo, hi),
{
}

} // verus!
