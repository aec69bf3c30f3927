//! Choosing a move.

use vstd::prelude::*;

use crate::ace::bearing::{always_borne_out, borne_out, lemma_borne_out};
use crate::ace::bridge::{hands_fit, TiBridge};
use crate::ace::certify::legal_in;
use crate::ace::certmemo::CertMemo;
use crate::ace::convert::{is_ace_move, keys_match, lemma_after_keeps_keys, mirrors};
use crate::ace::eval::{
    by_knowledge, eval_ok, geometric_legal_wall_count, tame, EvalMode, NetInput, NET_LIMIT,
};
use crate::ace::deepen::{
    concluded, depth_limit, found_last, gated, log_backed, log_searched, race_result, searched,
    table_result, takes_win, thought,
    Found,
};
use crate::ace::fields::DistFields;
use crate::ace::game::{lemma_ace_unmake_restores, lemma_pawn_cells, AceGame, AceState, ACE_NO_MOVE};
use crate::ace::movelist::GenMode;
use crate::ace::node::{entry_ok, scores_ok, Line, Memory, MAX_DEPTH};
use crate::ace::racecache::{table_for, wall_hi, wall_lo, RaceCache};
use crate::ace::raceroot::{
    pick_from_table, pick_race_move, race_pick, race_root, race_score, score_race,
};
use crate::ace::report::magnitude;
use crate::ace::replay::{start_game, start_state};
use crate::ace::score::{lemma_empty_vouched, style_of};
use crate::ace::search::{
    lemma_same_game, listens, AceDepthLogEntry, AceSearch, Progress, Root, SearchConfig,
    SearchStats, Stream, vouched,
};
use crate::ace::table::{Table, TT_BITS};
use crate::movegen::rules::wall_moves;
use crate::position::board::Board;
use crate::util::clock::Deadline;

verus! {

/// What a search came to.
pub struct ThinkResult {
    pub mv: i16,
    pub score: i32,
    pub depth: i32,
    pub nodes: u64,
    pub ms: u64,
    pub white_dist: u8,
    pub black_dist: u8,
    pub depth_log: Vec<AceDepthLogEntry>,
}

/// A game that can be searched.
pub open spec fn searchable(g: AceGame) -> bool {
    &&& g.wf()
    &&& keys_match(g@)
    &&& hands_fit(g@)
    &&& g@.hist.len() < 0x7FFF_0000
}

/// The configuration of a plain search.
pub open spec fn plain_config() -> SearchConfig {
    SearchConfig {
        gen: GenMode { ti_movegen: false, cat_walls: false, dead_zone_prune: false },
        eval: EvalMode { cheap_cert: false, cert_eval_leaves_only: false, race_proof: true },
        eme: false,
        use_partial_iter: false,
        pure_mode: false,
        is_pondering: false,
    }
}

/// The table answers nothing.
pub open spec fn answers_nothing(t: Table) -> bool {
    forall|lo: u32, hi: u32| (#[trigger] t.find(lo, hi)) is None
}

/// A search that has not searched: its tables, history, killers and answers are
/// empty, it holds no race table and no certificate, and it has found no move.
pub open spec fn unlearnt(a: AceSearch) -> bool {
    &&& answers_nothing(a.tt)
    &&& a.tt.filled == 0
    &&& a.memory.empty()
    &&& forall|i: int| 0 <= i < 64 ==> (#[trigger] a.race.tables[i]) is None
    &&& a.race.last is None
    &&& a.certs.cache@ == Map::<u128, i32>::empty()
    &&& a.root.best == ACE_NO_MOVE
    &&& a.root.pawn_best == -1
    &&& a.nodes == 0
    &&& !a.expired
}

/// A search that has not searched is vouched for, whatever the net.
pub proof fn lemma_unlearnt_vouched<N: Fn(NetInput) -> i32>(net: N, a: AceSearch)
    requires
        unlearnt(a),
    ensures
        vouched(net, a),
{
    lemma_empty_vouched(net, style_of(a.config), a.tt);
}

impl AceSearch {
    /// A search of a game with empty tables.
    fn fresh(g: AceGame) -> (r: Self)
        requires
            searchable(g),
        ensures
            r.ready(0),
            r.g == g,
            unlearnt(r),
            r.config == plain_config(),
            r.bridge is None,
            r.tt.bits == TT_BITS,
            r.tt.filled == 0,
            !r.tt.adaptive,
            r.nodes == 0,
            r.root.best == ACE_NO_MOVE,
    {
        reveal(AceSearch::ready);
        let tt: Table = Table::new(TT_BITS);
        proof {
            assert forall|lo: u32, hi: u32| (#[trigger] tt.find(lo, hi)) is None by {
                crate::util::pow::lemma_two_pow_small(tt.bits as nat);
                assert(tt.entries[tt.slot(lo)] == crate::ace::table::no_entry());
            }
        }
        let fields: DistFields = DistFields::new();
        AceSearch {
            g,
            tt,
            fields,
            line: Line::new(),
            memory: Memory::new(),
            bridge: None,
            config: SearchConfig {
                gen: GenMode { ti_movegen: false, cat_walls: false, dead_zone_prune: false },
                eval: EvalMode {
                    cheap_cert: false,
                    cert_eval_leaves_only: false,
                    race_proof: true,
                },
                eme: false,
                use_partial_iter: false,
                pure_mode: false,
                is_pondering: false,
            },
            race: RaceCache::new(),
            certs: CertMemo::new(),
            stats: SearchStats {
                refused_cuts: 0,
                tainted_stores: 0,
                fenced_lower: 0,
                fenced_upper: 0,
                line_repetitions: 0,
                game_repetitions: 0,
            },
            nodes: 0,
            rp_demotions: 0,
            rp_root_solves: 0,
            root: Root { best: ACE_NO_MOVE, score: 0, pawn_best: -1, pawn_score: i32::MIN },
            deadline: Deadline::new(0),
            expired: false,
            stream: Stream::new(),
        }
    }

    /// The same with a board in step.
    fn bridged(g: AceGame) -> (r: Self)
        requires
            searchable(g),
        ensures
            r.ready(0),
            r.g == g,
            unlearnt(r),
            r.config == plain_config(),
            r.bridge is Some,
            r.tt.bits == TT_BITS,
            r.tt.filled == 0,
            !r.tt.adaptive,
    {
        reveal(AceSearch::ready);
        let mut r: AceSearch = Self::fresh(g);
        r.bridge = Some(TiBridge::from_game(&r.g));
        r
    }

    /// A search with the game's own move generator.
    pub fn new(g: AceGame) -> (r: Box<Self>)
        requires
            searchable(g),
        ensures
            r.ready(0),
            r.g == g,
            unlearnt(*r),
            r.config == plain_config(),
            r.bridge is None,
            r.tt.bits == TT_BITS,
            r.tt.filled == 0,
            !r.tt.adaptive,
            r.nodes == 0,
    {
        Box::new(Self::fresh(g))
    }

    /// Searches early walls deeper.
    pub fn enable_eme(&mut self)
        requires
            old(self).ready(0),
        ensures
            final(self).ready(0),
            *final(self) == (AceSearch {
                config: SearchConfig { eme: true, ..old(self).config },
                ..*old(self)
            }),
    {
        reveal(AceSearch::ready);
        self.config.eme = true;
    }

    /// Moves from a board in step.
    fn ti_movegen(g: AceGame) -> (r: Self)
        requires
            searchable(g),
        ensures
            r.ready(0),
            r.g == g,
            unlearnt(r),
            r.config == (SearchConfig {
                gen: GenMode { ti_movegen: true, ..plain_config().gen },
                ..plain_config()
            }),
            r.bridge is Some,
            r.tt.bits == TT_BITS,
            r.tt.filled == 0,
            !r.tt.adaptive,
    {
        reveal(AceSearch::ready);
        let mut r: AceSearch = Self::bridged(g);
        r.config.gen.ti_movegen = true;
        r
    }

    /// Moves from a board in step.
    pub fn with_ti_movegen(g: AceGame) -> (r: Box<Self>)
        requires
            searchable(g),
        ensures
            r.ready(0),
            r.g == g,
            unlearnt(*r),
            r.config == (SearchConfig {
                gen: GenMode { ti_movegen: true, ..plain_config().gen },
                ..plain_config()
            }),
            r.bridge is Some,
            r.tt.bits == TT_BITS,
    {
        Box::new(Self::ti_movegen(g))
    }

    /// Moves from a board in step; no generations, ageing or resumed iterations.
    pub fn with_ti_movegen_pure(g: AceGame) -> (r: Box<Self>)
        requires
            searchable(g),
        ensures
            r.ready(0),
            r.g == g,
            unlearnt(*r),
            r.config == (SearchConfig {
                gen: GenMode { ti_movegen: true, ..plain_config().gen },
                pure_mode: true,
                ..plain_config()
            }),
            r.bridge is Some,
    {
        reveal(AceSearch::ready);
        let mut r: AceSearch = Self::ti_movegen(g);
        r.config.pure_mode = true;
        Box::new(r)
    }

    /// Below the root only walls that are worth it.
    pub fn with_cat(g: AceGame) -> (r: Box<Self>)
        requires
            searchable(g),
        ensures
            r.ready(0),
            r.g == g,
            unlearnt(*r),
            r.config == (SearchConfig {
                gen: GenMode { cat_walls: true, ..plain_config().gen },
                ..plain_config()
            }),
            r.bridge is Some,
    {
        reveal(AceSearch::ready);
        let mut r: AceSearch = Self::bridged(g);
        r.config.gen.cat_walls = true;
        Box::new(r)
    }

    /// Root moves from a board in step, below it only walls that are worth it.
    pub fn with_ti_movegen_and_cat(g: AceGame) -> (r: Box<Self>)
        requires
            searchable(g),
        ensures
            r.ready(0),
            r.g == g,
            unlearnt(*r),
            r.config == (SearchConfig {
                gen: GenMode { ti_movegen: true, cat_walls: true, ..plain_config().gen },
                ..plain_config()
            }),
            r.bridge is Some,
    {
        reveal(AceSearch::ready);
        let mut r: AceSearch = Self::ti_movegen(g);
        r.config.gen.cat_walls = true;
        Box::new(r)
    }

    /// The full engine: moves from a board in step, races by classifier and
    /// solver at leaves, and a table of fixed size or one that grows through
    /// the given cache tiers.
    pub fn grafted(g: AceGame, tt_bits: Option<usize>, tiers: (usize, usize, usize)) -> (r: Box<Self>)
        requires
            searchable(g),
            tt_bits matches Some(b) ==> b <= 31,
            tiers.0 <= 29,
            tiers.1 <= 30,
            tiers.2 <= 31,
        ensures
            r.ready(0),
            r.g == g,
            unlearnt(*r),
            r.config == grafted_config(),
            r.bridge is Some,
            tt_bits matches Some(b) ==> r.tt.bits == b && !r.tt.adaptive,
            tt_bits is None ==> r.tt.bits == tiers.0 && r.tt.adaptive,
    {
        Box::new(Self::graft(g, tt_bits, tiers))
    }

    fn graft(g: AceGame, tt_bits: Option<usize>, tiers: (usize, usize, usize)) -> (r: Self)
        requires
            searchable(g),
            tt_bits matches Some(b) ==> b <= 31,
            tiers.0 <= 29,
            tiers.1 <= 30,
            tiers.2 <= 31,
        ensures
            r.ready(0),
            r.g == g,
            unlearnt(r),
            r.config == grafted_config(),
            r.bridge is Some,
            tt_bits matches Some(b) ==> r.tt.bits == b && !r.tt.adaptive,
            tt_bits is None ==> r.tt.bits == tiers.0 && r.tt.adaptive,
    {
        let mut r: AceSearch = Self::ti_movegen(g);
        r.config.eval.cheap_cert = true;
        r.config.eval.cert_eval_leaves_only = true;
        proof {
            reveal(AceSearch::ready);
        }
        match tt_bits {
            Some(bits) => r.resize_tt(bits),
            None => r.enable_adaptive_tt(tiers.0, tiers.1, tiers.2),
        }
        r
    }

    /// The full engine without race proofs.
    pub fn grafted_no_raceproof(g: AceGame, tt_bits: Option<usize>, tiers: (usize, usize, usize)) -> (r: Box<
        Self,
    >)
        requires
            searchable(g),
            tt_bits matches Some(b) ==> b <= 31,
            tiers.0 <= 29,
            tiers.1 <= 30,
            tiers.2 <= 31,
        ensures
            r.ready(0),
            r.g == g,
            unlearnt(*r),
            r.config == (SearchConfig {
                eval: EvalMode { race_proof: false, ..grafted_config().eval },
                ..grafted_config()
            }),
            r.bridge is Some,
    {
        reveal(AceSearch::ready);
        let mut r: AceSearch = Self::graft(g, tt_bits, tiers);
        r.config.eval.race_proof = false;
        Box::new(r)
    }

    /// Moves from a board in step and races by classifier and solver.
    pub fn with_ti_movegen_cheap_cert(g: AceGame, tt_bits: Option<usize>) -> (r: Box<Self>)
        requires
            searchable(g),
            tt_bits matches Some(b) ==> b <= 31,
        ensures
            r.ready(0),
            r.g == g,
            unlearnt(*r),
            r.config == (SearchConfig {
                gen: GenMode { ti_movegen: true, ..plain_config().gen },
                eval: EvalMode { cheap_cert: true, ..plain_config().eval },
                ..plain_config()
            }),
            r.bridge is Some,
            tt_bits matches Some(b) ==> r.tt.bits == b,
            tt_bits is None ==> r.tt.bits == TT_BITS,
    {
        let mut r: AceSearch = Self::ti_movegen(g);
        r.config.eval.cheap_cert = true;
        proof {
            reveal(AceSearch::ready);
        }
        if let Some(bits) = tt_bits {
            r.resize_tt(bits);
        }
        Box::new(r)
    }

    /// Moves from a board in step and a table that grows.
    pub fn with_ti_movegen_adaptive_tt(g: AceGame, tiers: (usize, usize, usize)) -> (r: Box<Self>)
        requires
            searchable(g),
            tiers.0 <= 29,
            tiers.1 <= 30,
            tiers.2 <= 31,
        ensures
            r.ready(0),
            r.g == g,
            unlearnt(*r),
            r.config == (SearchConfig {
                gen: GenMode { ti_movegen: true, ..plain_config().gen },
                ..plain_config()
            }),
            r.bridge is Some,
            r.tt.bits == tiers.0,
            r.tt.adaptive,
    {
        let mut r: AceSearch = Self::ti_movegen(g);
        r.enable_adaptive_tt(tiers.0, tiers.1, tiers.2);
        Box::new(r)
    }

    /// Moves from a board in step, without walls in dead zones below the root.
    pub fn with_ti_movegen_deadzone(g: AceGame) -> (r: Box<Self>)
        requires
            searchable(g),
        ensures
            r.ready(0),
            r.g == g,
            unlearnt(*r),
            r.config == (SearchConfig {
                gen: GenMode { ti_movegen: true, dead_zone_prune: true, ..plain_config().gen },
                ..plain_config()
            }),
            r.bridge is Some,
    {
        reveal(AceSearch::ready);
        let mut r: AceSearch = Self::ti_movegen(g);
        r.config.gen.dead_zone_prune = true;
        Box::new(r)
    }

    /// Starts over with a table of `1 << bits` entries.
    pub fn resize_tt(&mut self, bits: usize)
        requires
            old(self).ready(0),
            bits <= 31,
        ensures
            final(self).ready(0),
            *final(self) == (AceSearch { tt: final(self).tt, ..*old(self) }),
            final(self).tt.bits == bits,
            final(self).tt.filled == 0,
            answers_nothing(final(self).tt),
            final(self).tt.adaptive == old(self).tt.adaptive,
            final(self).tt.generation == old(self).tt.generation,
    {
        reveal(AceSearch::ready);
        self.tt.resize(bits);
        proof {
            lemma_blank_scores(self.tt);
        }
    }

    /// A new game: the start, with the table, the killers, the answers and the
    /// history empty.
    pub fn new_game(&mut self)
        requires
            old(self).ready(0),
        ensures
            final(self).ready(0),
            final(self).g@ == start_state(),
            final(self).config == old(self).config,
            final(self).tt.bits == old(self).tt.bits,
            final(self).tt.filled == 0,
            answers_nothing(final(self).tt),
            final(self).memory.empty(),
    {
        proof {
            reveal(AceSearch::ready);
        }
        let bits: usize = self.tt.bits;
        self.resize_tt(bits);
        self.memory = Memory::new();
        proof {
            reveal(AceSearch::ready);
        }
        self.set_position(start_game());
    }

    /// Starts over with a small table that grows through the cache tiers.
    pub fn enable_adaptive_tt(&mut self, start: usize, l2: usize, l3: usize)
        requires
            old(self).ready(0),
            start <= 29,
            l2 <= 30,
            l3 <= 31,
        ensures
            final(self).ready(0),
            *final(self) == (AceSearch { tt: final(self).tt, ..*old(self) }),
            final(self).tt.bits == start,
            final(self).tt.adaptive,
            final(self).tt.filled == 0,
            answers_nothing(final(self).tt),
    {
        reveal(AceSearch::ready);
        self.tt.enable_adaptive(start, l2, l3);
        proof {
            lemma_blank_scores(self.tt);
        }
    }
}

/// The configuration of the full engine.
pub open spec fn grafted_config() -> SearchConfig {
    SearchConfig {
        gen: GenMode { ti_movegen: true, ..plain_config().gen },
        eval: EvalMode { cheap_cert: true, cert_eval_leaves_only: true, race_proof: true },
        ..plain_config()
    }
}

/// A table without entries has no wrong ones.
proof fn lemma_blank_scores(tt: Table)
    requires
        tt.wf(),
        forall|i: int|
            0 <= i < tt.entries@.len() ==> #[trigger] tt.entries[i] == crate::ace::table::no_entry(),
    ensures
        scores_ok(tt),
        answers_nothing(tt),
{
    assert forall|lo: u32, hi: u32| (#[trigger] tt.find(lo, hi)) is None by {
        crate::util::pow::lemma_two_pow_small(tt.bits as nat);
        assert(tt.entries[tt.slot(lo)] == crate::ace::table::no_entry());
    }
}

/// A damping of history values: none grows, none turns negative.
pub open spec fn damps<D: Fn(i32, u32) -> i32>(decay: D) -> bool {
    &&& forall|h: i32, d: u32| 0 <= h ==> #[trigger] call_requires(decay, (h, d))
    &&& forall|h: i32, d: u32, r: i32|
        0 <= h && #[trigger] call_ensures(decay, (h, d), r) ==> 0 <= r <= h
}

impl AceSearch {
    /// Forgets what was cached of the position and sets up the board again.
    pub fn position_changed(&mut self)
        requires
            old(self).fields.sized(),
            searchable(old(self).g),
        ensures
            *final(self) == (AceSearch {
                fields: DistFields { stamp: -1i32, ..old(self).fields },
                bridge: final(self).bridge,
                ..*old(self)
            }),
            final(self).bridge is Some == old(self).bridge is Some,
            final(self).bridge matches Some(b) ==> b.in_step(final(self).g@, 0),
            forall|s: AceState| s.wf() ==> #[trigger] final(self).fields.fits(s),
    {
        if self.bridge.is_some() {
            self.bridge = Some(TiBridge::from_game(&self.g));
        }
        self.fields.invalidate();
    }

    /// Plays a move for good. The table and what was learnt stay.
    pub fn apply_move(&mut self, m: i16)
        requires
            old(self).ready(0),
            is_ace_move(m),
            old(self).g@.playable(m),
            old(self).g@.hist.len() + 1 < 0x7FFF_0000,
        ensures
            final(self).ready(0),
            final(self).g@ == old(self).g@.after(m),
            *final(self) == (AceSearch {
                g: final(self).g,
                bridge: final(self).bridge,
                fields: DistFields {
                    stamp: if m >= 100 {
                        -1i32
                    } else {
                        old(self).fields.stamp
                    },
                    ..old(self).fields
                },
                ..*old(self)
            }),
            final(self).bridge is Some == old(self).bridge is Some,
    {
        reveal(AceSearch::ready);
        let ghost s = self.g@;
        proof {
            lemma_ace_unmake_restores(s, m);
            lemma_after_keeps_keys(s, m);
        }
        self.g.make_move(m);
        if m >= 100 {
            self.fields.invalidate();
        } else {
            proof {
                assert(self.fields.fits(s.after(m)));
            }
        }
        if self.bridge.is_some() {
            self.bridge = Some(TiBridge::from_game(&self.g));
        }
    }

    /// Replaces the position. The table and what was learnt stay.
    pub fn set_position(&mut self, g: AceGame)
        requires
            old(self).ready(0),
            searchable(g),
        ensures
            final(self).ready(0),
            *final(self) == (AceSearch {
                g,
                fields: DistFields { stamp: -1i32, ..old(self).fields },
                bridge: final(self).bridge,
                ..*old(self)
            }),
            final(self).bridge is Some == old(self).bridge is Some,
    {
        reveal(AceSearch::ready);
        self.g = g;
        self.position_changed();
    }

    /// Damps what was learnt, by how far the last score was off.
    pub fn decay_history_by_surprise<D: Fn(i32, u32) -> i32>(&mut self, prior_score: i32, decay: &D)
        requires
            old(self).ready(0),
            damps(*decay),
        ensures
            final(self).ready(0),
            *final(self) == (AceSearch {
                memory: Memory { history: final(self).memory.history, ..old(self).memory },
                ..*old(self)
            }),
            forall|i: int|
                0 <= i < 512 ==> call_ensures(
                    *decay,
                    (
                        old(self).memory.history[i],
                        magnitude(prior_score - old(self).root.score) as u32,
                    ),
                    #[trigger] final(self).memory.history[i],
                ),
    {
        reveal(AceSearch::ready);
        let gap: i64 = prior_score as i64 - self.root.score as i64;
        let surprise: u32 = if gap < 0 {
            (-gap) as u32
        } else {
            gap as u32
        };
        let ghost start = *self;
        let mut i: usize = 0;
        while i < 512
            invariant
                i <= 512,
                damps(*decay),
                *self == (AceSearch {
                    memory: Memory { history: self.memory.history, ..start.memory },
                    ..start
                }),
                start.memory.wf(),
                self.memory.wf(),
                forall|j: int|
                    0 <= j < i ==> call_ensures(
                        *decay,
                        (start.memory.history[j], surprise),
                        #[trigger] self.memory.history[j],
                    ),
                forall|j: int|
                    i <= j < 512 ==> #[trigger] self.memory.history[j] == start.memory.history[j],
            decreases 512 - i,
        {
            let h: i32 = self.memory.history[i];
            assert(h == start.memory.history[i as int]);
            let r: i32 = decay(h, surprise);
            self.memory.history[i] = r;
            i += 1;
        }
    }

    /// Plays a predicted move and damps what was learnt.
    pub fn migrate_root<D: Fn(i32, u32) -> i32>(&mut self, m: i16, prior_score: i32, decay: &D)
        requires
            old(self).ready(0),
            is_ace_move(m),
            old(self).g@.playable(m),
            old(self).g@.hist.len() + 1 < 0x7FFF_0000,
            damps(*decay),
        ensures
            final(self).ready(0),
            final(self).g@ == old(self).g@.after(m),
            final(self).config == old(self).config,
            final(self).root == old(self).root,
            final(self).tt == (Table {
                generation: if old(self).config.pure_mode {
                    old(self).tt.generation
                } else if old(self).tt.generation == 255 {
                    0
                } else {
                    (old(self).tt.generation + 1) as u8
                },
                ..old(self).tt
            }),
            forall|i: int|
                0 <= i < 512 ==> call_ensures(
                    *decay,
                    (
                        old(self).memory.history[i],
                        magnitude(prior_score - old(self).root.score) as u32,
                    ),
                    #[trigger] final(self).memory.history[i],
                ),
    {
        self.apply_move(m);
        self.decay_history_by_surprise(prior_score, decay);
        if !self.config.pure_mode {
            self.advance_generation();
        }
    }

    /// Starts a new generation of table entries.
    pub(crate) fn advance_generation(&mut self)
        requires
            old(self).ready(0),
        ensures
            final(self).ready(0),
            *final(self) == (AceSearch {
                tt: Table {
                    generation: if old(self).tt.generation == 255 {
                        0
                    } else {
                        (old(self).tt.generation + 1) as u8
                    },
                    ..old(self).tt
                },
                ..*old(self)
            }),
    {
        reveal(AceSearch::ready);
        let ghost before = self.tt;
        self.tt.next_generation();
        proof {
            assert forall|lo: u32, hi: u32| (#[trigger] self.tt.find(lo, hi)) is Some implies entry_ok(
                self.tt.find(lo, hi)->0,
            ) by {
                assert(self.tt.find(lo, hi) == before.find(lo, hi));
            }
        }
    }

    /// The value of the position without a search.
    pub fn eval_position<N: Fn(NetInput) -> i32>(&mut self, net: &N) -> (r: i32)
        requires
            old(self).ready(0),
            tame(*net),
        ensures
            final(self).ready(0),
            final(self).g@ == old(self).g@,
            final(self).config == old(self).config,
            -NET_LIMIT <= r <= NET_LIMIT,
            eval_ok(*net, old(self).config.eval, old(self).g@, 0, r as int),
            by_knowledge(
                *net,
                old(self).config.eval,
                old(self).race,
                old(self).certs,
                old(self).deadline,
                old(self).g@,
                0,
                r as int,
            ),
    {
        proof {
            reveal(AceSearch::ready);
        }
        self.position_changed();
        self.settle_in(0);
        let ghost a = *self;
        let r: i32 = self.value(0, 0, net);
        proof {
            lemma_same_game(a, *self, 64);
        }
        r
    }

    /// Whether an iteration that time cut short may change the move.
    pub fn set_partial_iter(&mut self, on: bool)
        requires
            old(self).ready(0),
        ensures
            final(self).ready(0),
            *final(self) == (AceSearch {
                config: SearchConfig { use_partial_iter: on, ..old(self).config },
                ..*old(self)
            }),
    {
        reveal(AceSearch::ready);
        self.config.use_partial_iter = on;
    }

    /// While pondering, searches share one generation and nothing ages.
    pub fn set_pondering(&mut self, on: bool)
        requires
            old(self).ready(0),
        ensures
            final(self).ready(0),
            *final(self) == (AceSearch {
                config: SearchConfig { is_pondering: on, ..old(self).config },
                ..*old(self)
            }),
    {
        reveal(AceSearch::ready);
        self.config.is_pondering = on;
    }

    /// How many wall slots could be built on without cutting a path.
    pub fn geometric_legal_wall_count(&self) -> (n: u32)
        requires
            self.ready(0),
        ensures
            exists|b: Board| #[trigger] mirrors(b, self.g@) && n == wall_moves(b).len(),
    {
        reveal(AceSearch::ready);
        geometric_legal_wall_count(&self.g, &self.bridge) as u32
    }
}

impl AceSearch {
    /// The move to play: in a race without walls what classifier and solver, or
    /// a table, say; otherwise what iterative deepening finds within the budget
    /// of a clock.
    pub fn think_by<N: Fn(NetInput) -> i32, R: Fn(Progress)>(
        &mut self,
        clock: &Deadline,
        max_depth: i32,
        full: bool,
        log: bool,
        engine_label: &str,
        net: &N,
        report: &R,
    ) -> (r: ThinkResult)
        requires
            old(self).ready(0),
            max_depth <= MAX_DEPTH,
            tame(*net),
            listens(*report),
        ensures
            final(self).ready(0),
            final(self).g@ == old(self).g@,
            final(self).config == old(self).config,
            thinks(
                *net,
                *old(self),
                *final(self),
                clock.reading(),
                clock.budget() as int,
                max_depth as int,
                full,
                r,
            ),
    {
        proof {
            reveal(AceSearch::ready);
        }
        let race: bool = self.g.wl[0] == 0 && self.g.wl[1] == 0 && self.g.pawn[0] >= 9
            && self.g.pawn[1] < 72;
        if self.config.eval.cheap_cert && race {
            if let Some(r) = self.settle_race(clock, log, engine_label, report) {
                return r;
            }
        }
        if self.config.eval.race_proof && race {
            if let Some(r) = self.look_up_race(clock) {
                return r;
            }
        }
        let ghost a1 = *self;
        let r: ThinkResult = self.think_search(
            clock,
            max_depth,
            full,
            log,
            engine_label,
            net,
            report,
        );
        proof {
            lemma_concluded_alike(*old(self), a1, r);
        }
        r
    }

    /// The same on the machine's clock, for `time_ms` from now on.
    pub fn think<N: Fn(NetInput) -> i32, R: Fn(Progress)>(
        &mut self,
        time_ms: u64,
        max_depth: i32,
        full: bool,
        log: bool,
        engine_label: &str,
        net: &N,
        report: &R,
    ) -> (r: ThinkResult)
        requires
            old(self).ready(0),
            max_depth <= MAX_DEPTH,
            tame(*net),
            listens(*report),
        ensures
            final(self).ready(0),
            final(self).g@ == old(self).g@,
            final(self).config == old(self).config,
            thinks(
                *net,
                *old(self),
                *final(self),
                None,
                time_ms as int,
                max_depth as int,
                full,
                r,
            ),
    {
        let clock: Deadline = Deadline::new(time_ms);
        self.think_by(&clock, max_depth, full, log, engine_label, net, report)
    }

    /// The outcome of a race by classifier and solver, if there is a pawn move.
    fn settle_race<R: Fn(Progress)>(
        &mut self,
        start: &Deadline,
        log: bool,
        engine_label: &str,
        report: &R,
    ) -> (r: Option<ThinkResult>)
        requires
            old(self).ready(0),
            race_root(old(self).g@),
            listens(*report),
        ensures
            final(self).ready(0),
            final(self).g@ == old(self).g@,
            final(self).config == old(self).config,
            r is None <==> old(self).g@.pawn_cells().len() == 0,
            r is None ==> same_start(*old(self), *final(self)),
            final(self).tt == old(self).tt,
            r matches Some(x) ==> thought(x, old(self).g@, 0) && race_result(x, old(self).g@),
    {
        let ghost s = self.g@;
        let mut buf: [i16; 16] = [0i16; 16];
        proof {
            reveal(AceSearch::ready);
            lemma_pawn_cells(s.h, s.v, s.pawn(s.turn), s.pawn(1 - s.turn));
        }
        let n: usize = self.g.gen_pawn_moves(&mut buf, 0);
        match pick_race_move(&mut self.g) {
            None => None,
            Some((mv, v)) => {
                self.rp_root_solves = self.rp_root_solves.saturating_add(1);
                self.settle_in(0);
                let score: i32 = score_race(v);
                let (white_dist, black_dist) = self.both_dists();
                if log {
                    report(
                        Progress {
                            label: engine_label.to_owned(),
                            depth_log: Vec::new(),
                            search_depth: 99,
                            nodes: n as u64,
                            root_score: score,
                            white_dist,
                            black_dist,
                            elapsed_ms: start.elapsed_ms(),
                        },
                    );
                }
                proof {
                    lemma_race_move_legal(s, mv);
                }
                let r: ThinkResult = ThinkResult {
                    mv,
                    score,
                    depth: 99,
                    nodes: n as u64,
                    ms: start.elapsed_ms(),
                    white_dist,
                    black_dist,
                    depth_log: Vec::new(),
                };
                assert(race_pick(s, r.mv, v as int));
                Some(r)
            },
        }
    }

    /// The outcome of a race by a table, where it knows a winner and a pawn
    /// move that bears its value out.
    fn look_up_race(&mut self, start: &Deadline) -> (r: Option<ThinkResult>)
        requires
            old(self).ready(0),
            race_root(old(self).g@),
        ensures
            final(self).ready(0),
            final(self).g@ == old(self).g@,
            final(self).config == old(self).config,
            r matches Some(x) ==> thought(x, old(self).g@, 0) && table_result(x, old(self).g@),
            exists|t: Seq<i16>| #[trigger]
                table_for(
                    t,
                    wall_lo(old(self).g@.h, old(self).g@.v),
                    wall_hi(old(self).g@.h, old(self).g@.v),
                ) && (r is Some) == borne_out(t, old(self).g@),
            r is None ==> same_start(*old(self), *final(self)),
            final(self).tt == old(self).tt,
    {
        let ghost s = self.g@;
        let mut buf: [i16; 16] = [0i16; 16];
        proof {
            reveal(AceSearch::ready);
            lemma_pawn_cells(s.h, s.v, s.pawn(s.turn), s.pawn(1 - s.turn));
        }
        let n: usize = self.g.gen_pawn_moves(&mut buf, 0);
        let found: Option<(i16, i32)> = match self.race.race_tbl(&self.g, true, start) {
            None => None,
            Some(slot) => {
                let ghost table = self.race.tables[slot as int]->0@;
                assert(table_for(table, wall_lo(s.h, s.v), wall_hi(s.h, s.v)));
                let rv: i32 = self.race.race_value(slot, &self.g) as i32;
                if rv == 0 {
                    None
                } else {
                    match &self.race.tables[slot] {
                        None => None,
                        Some(t) => match pick_from_table(t, &self.g) {
                            None => None,
                            Some((mv, v)) => {
                                proof {
                                    lemma_borne_out(table, s, v as int);
                                }
                                if v == rv {
                                    proof {
                                        assert(race_score(v as int) == race_score(rv as int));
                                    }
                                    Some((mv, v))
                                } else {
                                    None
                                }
                            },
                        },
                    }
                }
            },
        };
        match found {
            None => None,
            Some((mv, v)) => {
                self.rp_root_solves = self.rp_root_solves.saturating_add(1);
                self.settle_in(0);
                let (white_dist, black_dist) = self.both_dists();
                proof {
                    lemma_race_move_legal(s, mv);
                }
                Some(
                    ThinkResult {
                        mv,
                        score: score_race(v),
                        depth: 99,
                        nodes: n as u64,
                        ms: start.elapsed_ms(),
                        white_dist,
                        black_dist,
                        depth_log: Vec::new(),
                    },
                )
            },
        }
    }
}

/// What thinking about the position of `a` comes to, and leaves as `b`: in a
/// race without walls what classifier and solver, or a table, say where they
/// are in use; otherwise what the iterations find.
pub open spec fn thinks<N: Fn(NetInput) -> i32>(
    net: N,
    a: AceSearch,
    b: AceSearch,
    reading: Option<u128>,
    time_ms: int,
    max_depth: int,
    full: bool,
    r: ThinkResult,
) -> bool {
    let s = a.g@;
    let mode = a.config.eval;
    let by_search = {
        &&& searched(a, b, reading, time_ms, max_depth, full, r)
        &&& 0 <= r.depth <= depth_limit(max_depth)
    };
    &&& thought(r, s, depth_limit(max_depth))
    &&& log_backed(net, mode, s, r.depth_log@)
    &&& vouched(net, a) ==> vouched(net, b) && log_searched(
        net,
        style_of(a.config),
        s,
        r.depth_log@,
    )
    &&& r.depth_log@.len() > 0 ==> takes_win(s, r.mv, r.score as int)
    &&& if race_root(s) && mode.cheap_cert && s.pawn_cells().len() > 0 {
        race_result(r, s)
    } else if race_root(s) && mode.race_proof {
        &&& table_result(r, s) || by_search
        &&& always_borne_out(s) ==> table_result(r, s)
    } else {
        by_search
    }
}

/// A search from one starts like a search from the other, where no wall is
/// left.
pub open spec fn same_start(a: AceSearch, b: AceSearch) -> bool {
    &&& b.tt == a.tt
    &&& b.memory == a.memory
    &&& b.config == a.config
    &&& b.g@ == a.g@
}

/// What follows from what was found depends on the start of the search alone.
proof fn lemma_concluded_alike(a: AceSearch, b: AceSearch, r: ThinkResult)
    requires
        same_start(a, b),
        exists|f: Found| #[trigger]
            concluded(b, f, r) && f.ok(b.g@) && found_last(
                b.config.use_partial_iter,
                r.depth_log@,
                f,
            ),
    ensures
        exists|f: Found| #[trigger]
            concluded(a, f, r) && f.ok(a.g@) && found_last(
                a.config.use_partial_iter,
                r.depth_log@,
                f,
            ),
{
    let f = choose|f: Found| #[trigger]
        concluded(b, f, r) && f.ok(b.g@) && found_last(
            b.config.use_partial_iter,
            r.depth_log@,
            f,
        );
    assert(gated(a, f) == gated(b, f));
    assert(concluded(a, f, r));
}

/// A pawn move is legal.
proof fn lemma_race_move_legal(s: AceState, m: i16)
    requires
        s.wf(),
        s.pawn_cells().contains(m),
    ensures
        legal_in(s, m),
{
    lemma_pawn_cells(s.h, s.v, s.pawn(s.turn), s.pawn(1 - s.turn));
}

} // verus!
