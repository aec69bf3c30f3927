//! The engine behind a session: what each request does to the search.

use vstd::prelude::*;

use crate::ace::certify::legal_in;
use crate::ace::convert::is_ace_move;
use crate::ace::deepen::allotted_spec;
use crate::ace::engines::board_config;
use crate::ace::eval::{tame, NetInput, MATE};
use crate::ace::fields::DistFields;
use crate::ace::game::{AceGame, AceState, ACE_NO_MOVE};
use crate::ace::node::Memory;
use crate::ace::raceroot::race_root;
use crate::ace::replay::{open_game, start_game, start_state, MAX_GAME_LENGTH};
use crate::ace::report::magnitude;
use crate::ace::search::{listens, vouched, AceSearch, Progress, SearchConfig};
use crate::ace::think::{damps, grafted_config, plain_config, searchable, thinks, unlearnt, ThinkResult};
use crate::util::clock::Deadline;
use crate::util::text::{contains_text, holds_at, lemma_held_text, same_text};

verus! {

/// A request to the engine.
pub enum Cmd {
    /// Another position.
    SetGame(AceGame),
    /// Search for this many milliseconds; that ends any pondering.
    GoTimed(u64),
    /// Ponder, after this move if it is one.
    GoInfinite(i16),
    /// Stop pondering.
    StopAndGet,
    /// The pondered move was played: search.
    PonderHit(u64),
    /// Another move was played: search the position.
    MoveMiss { new_game: AceGame, time_ms: u64 },
    Quit,
}

/// What the engine answers.
#[derive(Debug, Clone, Copy, PartialEq, Eq, Structural)]
pub enum Answer {
    Nothing,
    BestMove(i16),
    /// No more requests are taken.
    Gone,
}

/// Depth of every search.
pub const DAEMON_DEPTH: i32 = 30;

/// Length of a stretch of pondering, in milliseconds.
pub const PONDER_CHUNK_MS: u64 = 100;

/// The engine.
pub struct Daemon {
    pub search: AceSearch,
    /// Score of the last search.
    pub last_score: i32,
    pub pondering: bool,
    /// Best move of the pondering so far.
    pub last_mv: i16,
}

/// The configuration of an engine that can ponder: the plain search, the one with
/// moves from a board and no ageing, or the full one. Names with `pmc` in them
/// search early walls deeper.
pub open spec fn daemon_config(flag: Seq<char>) -> SearchConfig {
    let base = if flag == "ace-v13-pure"@ {
        plain_config()
    } else if flag == "ace-v13-ti-pure"@ {
        SearchConfig { pure_mode: true, ..board_config() }
    } else {
        grafted_config()
    };
    SearchConfig { eme: exists|at: int| #[trigger] holds_at(flag, "pmc"@, at), ..base }
}

/// The search of an engine that can ponder.
pub fn build_search(engine_flag: &str, g: AceGame, tiers: (usize, usize, usize)) -> (r: Box<
    AceSearch,
>)
    requires
        searchable(g),
        tiers.0 <= 29,
        tiers.1 <= 30,
        tiers.2 <= 31,
    ensures
        r.ready(0),
        r.g == g,
        unlearnt(*r),
        r.config == daemon_config(engine_flag@),
{
    let mut search: Box<AceSearch> = if same_text(engine_flag, "ace-v13-pure") {
        AceSearch::new(g)
    } else if same_text(engine_flag, "ace-v13-ti-pure") {
        AceSearch::with_ti_movegen_pure(g)
    } else {
        AceSearch::grafted(g, None, tiers)
    };
    if contains_text(engine_flag, "pmc") {
        search.enable_eme();
    }
    search
}

impl Daemon {
    pub open spec fn wf(self) -> bool {
        &&& self.search.ready(0)
        &&& self.search.g@.hist.len() <= MAX_GAME_LENGTH + 1
        &&& -MATE <= self.last_score <= MATE
        &&& self.last_mv == ACE_NO_MOVE || legal_in(self.search.g@, self.last_mv)
    }

    /// A request that can be met: the games in it can be searched, and the move
    /// to ponder on can be played.
    pub open spec fn takes(self, cmd: Cmd) -> bool {
        match cmd {
            Cmd::SetGame(g) => open_game(g),
            Cmd::MoveMiss { new_game, .. } => open_game(new_game),
            Cmd::GoInfinite(m) => self.pondering || m == ACE_NO_MOVE || (is_ace_move(m)
                && self.search.g@.playable(m) && self.search.g@.hist.len() <= MAX_GAME_LENGTH),
            _ => true,
        }
    }

    /// An engine at the start of a game.
    pub fn new(engine_flag: &str, tiers: (usize, usize, usize)) -> (r: Self)
        requires
            tiers.0 <= 29,
            tiers.1 <= 30,
            tiers.2 <= 31,
        ensures
            r.wf(),
            !r.pondering,
            r.search.g@ == start_state(),
            r.search.config == daemon_config(engine_flag@),
            unlearnt(r.search),
            r.last_score == 0,
            r.last_mv == ACE_NO_MOVE,
    {
        let search: Box<AceSearch> = build_search(engine_flag, start_game(), tiers);
        Daemon { search: *search, last_score: 0, pondering: false, last_mv: ACE_NO_MOVE }
    }

    /// Searches and tells the move.
    fn best<N: Fn(NetInput) -> i32, R: Fn(Progress)>(
        &mut self,
        clock: &Deadline,
        label: &str,
        net: &N,
        report: &R,
    ) -> (a: Answer)
        requires
            old(self).wf(),
            tame(*net),
            listens(*report),
        ensures
            final(self).wf(),
            final(self).search.g@ == old(self).search.g@,
            final(self).search.config == old(self).search.config,
            answered(
                *net,
                old(self).search,
                *final(self),
                clock.reading(),
                clock.budget() as int,
                a,
            ),
    {
        let r: ThinkResult = self.search.think_by(
            clock,
            DAEMON_DEPTH,
            false,
            true,
            label,
            net,
            report,
        );
        self.last_score = r.score;
        self.pondering = false;
        self.last_mv = ACE_NO_MOVE;
        assert(thinks(
            *net,
            old(self).search,
            self.search,
            clock.reading(),
            clock.budget() as int,
            DAEMON_DEPTH as int,
            false,
            r,
        ));
        Answer::BestMove(r.mv)
    }

    /// Takes over a game.
    fn take_game(&mut self, g: AceGame)
        requires
            old(self).wf(),
            open_game(g),
        ensures
            final(self).wf(),
            placed(old(self).search, g, final(self).search),
            final(self).last_mv == ACE_NO_MOVE,
            final(self).pondering == old(self).pondering,
            final(self).last_score == old(self).last_score,
    {
        self.search.set_position(g);
        self.last_mv = ACE_NO_MOVE;
    }

    /// Meets a request, searching by a clock for the time of the request. Any
    /// search that is asked for ends the pondering.
    pub fn obey_by<N: Fn(NetInput) -> i32, R: Fn(Progress), D: Fn(i32, u32) -> i32>(
        &mut self,
        cmd: Cmd,
        clock: &Deadline,
        label: &str,
        net: &N,
        report: &R,
        decay: &D,
    ) -> (a: Answer)
        requires
            old(self).wf(),
            old(self).takes(cmd),
            tame(*net),
            listens(*report),
            damps(*decay),
        ensures
            final(self).wf(),
            final(self).search.config == old(self).search.config,
            obeyed(*net, *decay, *old(self), cmd, clock.reading(), *final(self), a),
    {
        match cmd {
            Cmd::SetGame(g) => {
                self.take_game(g);
                Answer::Nothing
            },
            Cmd::GoTimed(time_ms) => self.best(&clock.with_budget(time_ms), label, net, report),
            Cmd::GoInfinite(m) => {
                if !self.pondering {
                    if m != ACE_NO_MOVE {
                        self.search.apply_move(m);
                    }
                    self.pondering = true;
                    self.last_mv = ACE_NO_MOVE;
                }
                Answer::Nothing
            },
            Cmd::StopAndGet => {
                if self.pondering {
                    self.pondering = false;
                    Answer::BestMove(self.last_mv)
                } else {
                    Answer::BestMove(ACE_NO_MOVE)
                }
            },
            Cmd::PonderHit(time_ms) => self.best(&clock.with_budget(time_ms), label, net, report),
            Cmd::MoveMiss { new_game, time_ms } => {
                self.take_game(new_game);
                if self.pondering {
                    self.search.decay_history_by_surprise(self.last_score, decay);
                }
                let ghost c = self.search;
                assert(missed(*decay, *old(self), new_game, c));
                self.best(&clock.with_budget(time_ms), label, net, report)
            },
            Cmd::Quit => Answer::Gone,
        }
    }

    /// Meets a request on the machine's clock.
    pub fn obey<N: Fn(NetInput) -> i32, R: Fn(Progress), D: Fn(i32, u32) -> i32>(
        &mut self,
        cmd: Cmd,
        label: &str,
        net: &N,
        report: &R,
        decay: &D,
    ) -> (a: Answer)
        requires
            old(self).wf(),
            old(self).takes(cmd),
            tame(*net),
            listens(*report),
            damps(*decay),
        ensures
            final(self).wf(),
            final(self).search.config == old(self).search.config,
            obeyed(*net, *decay, *old(self), cmd, None, *final(self), a),
    {
        let clock: Deadline = Deadline::new(0);
        self.obey_by(cmd, &clock, label, net, report, decay)
    }

    /// Ponders for a stretch, by a clock.
    pub fn ponder_by<N: Fn(NetInput) -> i32, R: Fn(Progress)>(
        &mut self,
        clock: &Deadline,
        label: &str,
        net: &N,
        report: &R,
    )
        requires
            old(self).wf(),
            old(self).pondering,
            tame(*net),
            listens(*report),
        ensures
            final(self).wf(),
            final(self).search.config == old(self).search.config,
            final(self).search.g@ == old(self).search.g@,
            pondered(*net, *old(self), clock.reading(), *final(self)),
    {
        let r: ThinkResult = self.search.think_by(
            &clock.with_budget(PONDER_CHUNK_MS),
            DAEMON_DEPTH,
            false,
            false,
            label,
            net,
            report,
        );
        if r.mv != ACE_NO_MOVE {
            self.last_mv = r.mv;
            self.last_score = r.score;
        }
        assert(thinks(
            *net,
            old(self).search,
            self.search,
            clock.reading(),
            PONDER_CHUNK_MS as int,
            DAEMON_DEPTH as int,
            false,
            r,
        ));
    }

    /// Ponders for a stretch.
    pub fn ponder<N: Fn(NetInput) -> i32, R: Fn(Progress)>(
        &mut self,
        label: &str,
        net: &N,
        report: &R,
    )
        requires
            old(self).wf(),
            old(self).pondering,
            tame(*net),
            listens(*report),
        ensures
            final(self).wf(),
            final(self).search.config == old(self).search.config,
            final(self).search.g@ == old(self).search.g@,
            pondered(*net, *old(self), None, *final(self)),
    {
        let clock: Deadline = Deadline::new(0);
        self.ponder_by(&clock, label, net, report)
    }
}

/// The search is at another game, with everything else as it was.
pub open spec fn placed(a: AceSearch, g: AceGame, b: AceSearch) -> bool {
    b == (AceSearch {
        g,
        fields: DistFields { stamp: -1i32, ..a.fields },
        bridge: b.bridge,
        ..a
    })
}

/// The search after a move that was not expected: it is at the new game, and
/// what was learnt while pondering is damped by how far the score is off.
pub open spec fn missed<D: Fn(i32, u32) -> i32>(
    decay: D,
    d: Daemon,
    g: AceGame,
    c: AceSearch,
) -> bool {
    let a = d.search;
    &&& c == (AceSearch {
        g,
        fields: DistFields { stamp: -1i32, ..a.fields },
        bridge: c.bridge,
        memory: Memory { history: c.memory.history, ..a.memory },
        ..a
    })
    &&& if d.pondering {
        forall|i: int|
            0 <= i < 512 ==> call_ensures(
                decay,
                (a.memory.history[i], magnitude(d.last_score - a.root.score) as u32),
                #[trigger] c.memory.history[i],
            )
    } else {
        c.memory.history == a.memory.history
    }
}

/// The answer is the move of a search for the time given, whose score is kept.
pub open spec fn answered<N: Fn(NetInput) -> i32>(
    net: N,
    a: AceSearch,
    d: Daemon,
    reading: Option<u128>,
    time_ms: int,
    answer: Answer,
) -> bool {
    &&& !d.pondering
    &&& d.last_mv == ACE_NO_MOVE
    &&& d.search.g@ == a.g@
    &&& exists|r: ThinkResult| #[trigger]
        thinks(net, a, d.search, reading, time_ms, DAEMON_DEPTH as int, false, r) && answer
            == Answer::BestMove(r.mv) && d.last_score == r.score
}

/// What a stretch of pondering comes to: a search of its length, whose move and
/// score are kept where there is one.
pub open spec fn pondered<N: Fn(NetInput) -> i32>(
    net: N,
    d: Daemon,
    reading: Option<u128>,
    e: Daemon,
) -> bool {
    &&& e.pondering
    &&& exists|r: ThinkResult| #[trigger]
        thinks(
            net,
            d.search,
            e.search,
            reading,
            PONDER_CHUNK_MS as int,
            DAEMON_DEPTH as int,
            false,
            r,
        ) && if r.mv != ACE_NO_MOVE {
            e.last_mv == r.mv && e.last_score == r.score
        } else {
            e.last_mv == d.last_mv && e.last_score == d.last_score
        }
}

/// What a request does to the engine `d`, which becomes `e`, and the answer.
pub open spec fn obeyed<N: Fn(NetInput) -> i32, D: Fn(i32, u32) -> i32>(
    net: N,
    decay: D,
    d: Daemon,
    cmd: Cmd,
    reading: Option<u128>,
    e: Daemon,
    a: Answer,
) -> bool {
    match cmd {
        Cmd::SetGame(g) => {
            &&& a == Answer::Nothing
            &&& placed(d.search, g, e.search)
            &&& e.pondering == d.pondering
            &&& e.last_mv == ACE_NO_MOVE
            &&& e.last_score == d.last_score
        },
        Cmd::GoTimed(time_ms) => answered(net, d.search, e, reading, time_ms as int, a),
        Cmd::GoInfinite(m) => if d.pondering {
            a == Answer::Nothing && e == d
        } else {
            &&& a == Answer::Nothing
            &&& e.pondering
            &&& e.last_mv == ACE_NO_MOVE
            &&& e.last_score == d.last_score
            &&& e.search.g@ == (if m == ACE_NO_MOVE {
                d.search.g@
            } else {
                d.search.g@.after(m)
            })
            &&& e.search == (AceSearch {
                g: e.search.g,
                bridge: e.search.bridge,
                fields: e.search.fields,
                ..d.search
            })
        },
        Cmd::StopAndGet => {
            &&& a == Answer::BestMove(
                if d.pondering {
                    d.last_mv
                } else {
                    ACE_NO_MOVE
                },
            )
            &&& e == (Daemon { pondering: false, ..d })
        },
        Cmd::PonderHit(time_ms) => answered(net, d.search, e, reading, time_ms as int, a),
        Cmd::MoveMiss { new_game, time_ms } => exists|c: AceSearch| #[trigger]
            missed(decay, d, new_game, c) && answered(net, c, e, reading, time_ms as int, a),
        Cmd::Quit => a == Answer::Gone && e == d,
    }
}

/// Whatever the engine is asked, its search stays vouched for: its table holds
/// scores of searches with the net.
pub proof fn lemma_obeying_stays_vouched<N: Fn(NetInput) -> i32, D: Fn(i32, u32) -> i32>(
    net: N,
    decay: D,
    d: Daemon,
    cmd: Cmd,
    reading: Option<u128>,
    e: Daemon,
    a: Answer,
)
    requires
        obeyed(net, decay, d, cmd, reading, e, a),
        e.search.config == d.search.config,
        vouched(net, d.search),
    ensures
        vouched(net, e.search),
{
    if let Cmd::MoveMiss { new_game, time_ms } = cmd {
        let c = choose|c: AceSearch| #[trigger]
            missed(decay, d, new_game, c) && answered(net, c, e, reading, time_ms as int, a);
        assert(c.tt == d.search.tt && c.config == d.search.config);
        assert(vouched(net, c));
    }
}

/// So it does while pondering.
pub proof fn lemma_pondering_stays_vouched<N: Fn(NetInput) -> i32>(
    net: N,
    d: Daemon,
    reading: Option<u128>,
    e: Daemon,
)
    requires
        pondered(net, d, reading, e),
        vouched(net, d.search),
    ensures
        vouched(net, e.search),
{
}

/// The answer to a request to search is a move of the position, or none where
/// the game is over or there is none.
pub proof fn lemma_answer_is_a_move<N: Fn(NetInput) -> i32>(
    net: N,
    a: AceSearch,
    d: Daemon,
    reading: Option<u128>,
    time_ms: int,
    answer: Answer,
)
    requires
        answered(net, a, d, reading, time_ms, answer),
    ensures
        answer matches Answer::BestMove(m) && move_ok(m, a.g@),
{
}

/// While the search is set to ponder, neither its generation nor what it
/// learnt ages: a stretch leaves the generation as it was, and where the clock
/// leaves no time for an iteration, the table and the history too.
pub proof fn lemma_pondering_ages_nothing<N: Fn(NetInput) -> i32>(
    net: N,
    d: Daemon,
    reading: Option<u128>,
    e: Daemon,
)
    requires
        pondered(net, d, reading, e),
        d.search.config.is_pondering,
        !race_root(d.search.g@),
    ensures
        e.search.tt.generation == d.search.tt.generation,
        reading is Some && reading->0 >= PONDER_CHUNK_MS * 1_000_000 ==> e.search.tt
            == d.search.tt && e.search.memory == d.search.memory,
{
    assert(allotted_spec(d.search, PONDER_CHUNK_MS as int) <= PONDER_CHUNK_MS);
}

/// A move of the position, or none where the game is over or there is none.
pub open spec fn move_ok(m: i16, s: AceState) -> bool {
    &&& m == ACE_NO_MOVE || legal_in(s, m)
    &&& m == ACE_NO_MOVE && s.winner_spec() == -1 ==> forall|x: i16| !(#[trigger] legal_in(s, x))
}

/// A search that is asked for gets the time that it is given: the iterations at
/// least 70 percent of it, and all of it unless the mover is down to its last
/// wall. The score that is kept is the one that the answer goes with.
pub proof fn lemma_search_gets_its_time<N: Fn(NetInput) -> i32>(
    net: N,
    a: AceSearch,
    d: Daemon,
    reading: Option<u128>,
    time_ms: int,
    answer: Answer,
)
    requires
        answered(net, a, d, reading, time_ms, answer),
        !race_root(a.g@),
        0 <= time_ms,
    ensures
        70 * time_ms <= 100 * d.search.deadline.budget() <= 100 * time_ms,
        a.g@.wl(a.g@.turn) != 1 ==> d.search.deadline.budget() == time_ms,
        !d.pondering,
        d.search.g@ == a.g@,
{
    crate::ace::searchlaws::lemma_time_is_shared(a, time_ms, a.race.build_ms as int);
}

/// A stop after pondering answers with the move that the pondering found last, and
/// with none where nothing was pondered; the search is left as it was.
pub proof fn lemma_stop_tells_what_was_found<N: Fn(NetInput) -> i32, D: Fn(i32, u32) -> i32>(
    net: N,
    decay: D,
    c: Daemon,
    d: Daemon,
    reading: Option<u128>,
    e: Daemon,
    a: Answer,
)
    requires
        pondered(net, c, reading, d),
        obeyed(net, decay, d, Cmd::StopAndGet, reading, e, a),
    ensures
        !e.pondering,
        e.search == d.search,
        exists|r: ThinkResult| #[trigger]
            thinks(
                net,
                c.search,
                d.search,
                reading,
                100,
                DAEMON_DEPTH as int,
                false,
                r,
            ) && a == Answer::BestMove(
                if r.mv != ACE_NO_MOVE {
                    r.mv
                } else {
                    c.last_mv
                },
            ),
{
}

/// Another position, and a guess that was missed, put the search at the position
/// given; only a missed guess while pondering touches what was learnt.
pub proof fn lemma_positions_are_taken_over<N: Fn(NetInput) -> i32, D: Fn(i32, u32) -> i32>(
    net: N,
    decay: D,
    d: Daemon,
    g: AceGame,
    time_ms: u64,
    reading: Option<u128>,
    e: Daemon,
    a: Answer,
    f: Daemon,
    b: Answer,
)
    requires
        obeyed(net, decay, d, Cmd::SetGame(g), reading, e, a),
        obeyed(net, decay, d, Cmd::MoveMiss { new_game: g, time_ms }, reading, f, b),
    ensures
        e.search.g@ == g@,
        e.search.tt == d.search.tt,
        e.search.memory == d.search.memory,
        e.last_mv == ACE_NO_MOVE,
        a == Answer::Nothing,
        f.search.g@ == g@,
        b is BestMove,
{
}

/// After a move that was not expected the search stands at the new game, with its
/// table. What it learnt is damped only if it pondered, and then every value by
/// the same surprise, which is the difference between the last score and the one
/// that the pondering came to, whichever is higher; no value grows.
pub proof fn lemma_surprise_damps<D: Fn(i32, u32) -> i32>(
    decay: D,
    d: Daemon,
    g: AceGame,
    c: AceSearch,
    i: int,
)
    requires
        missed(decay, d, g, c),
        damps(decay),
        0 <= i < 512,
        d.search.memory.history[i] >= 0,
    ensures
        c.g == g,
        c.tt == d.search.tt,
        0 <= c.memory.history[i] <= d.search.memory.history[i],
        !d.pondering ==> c.memory.history[i] == d.search.memory.history[i],
        d.pondering && d.last_score >= d.search.root.score ==> call_ensures(
            decay,
            (d.search.memory.history[i], (d.last_score - d.search.root.score) as u32),
            c.memory.history[i],
        ),
        d.pondering && d.last_score <= d.search.root.score ==> call_ensures(
            decay,
            (d.search.memory.history[i], (d.search.root.score - d.last_score) as u32),
            c.memory.history[i],
        ),
{
}

/// The engines that can ponder: only the pure one has a generator of its own, only
/// the pure one with a board is without ageing, and all others go by classifier
/// and solver, with certificates for leaves only. `pmc` in a name, wherever it
/// stands, has early walls searched deeper.
pub proof fn lemma_pondering_engines(flag: Seq<char>)
    ensures
        ({
            let c = daemon_config(flag);
            &&& c.gen.ti_movegen <==> flag != "ace-v13-pure"@
            &&& c.pure_mode <==> flag == "ace-v13-ti-pure"@
            &&& c.eval.cheap_cert <==> flag != "ace-v13-pure"@ && flag != "ace-v13-ti-pure"@
            &&& c.eval.cert_eval_leaves_only <==> c.eval.cheap_cert
            &&& c.eme <==> exists|a: Seq<char>, z: Seq<char>| flag == #[trigger] ((a + "pmc"@) + z)
            &&& c.eval.race_proof && !c.gen.cat_walls && !c.is_pondering
        }),
{
    reveal_strlit("ace-v13-pure");
    reveal_strlit("ace-v13-ti-pure");
    assert("ace-v13-pure"@.len() != "ace-v13-ti-pure"@.len());
    lemma_held_text(flag, "pmc"@);
}

} // verus!
