//! The searches that engine names stand for.

use vstd::prelude::*;

use crate::ace::eval::EvalMode;
use crate::ace::game::AceGame;
use crate::ace::movelist::GenMode;
use crate::ace::search::{AceSearch, SearchConfig};
use crate::ace::table::TT_BITS;
use crate::ace::think::{grafted_config, plain_config, searchable, unlearnt};
use crate::arena::MatchEngine;
use crate::cli::EngineMode;
use crate::util::text::{contains_text, holds_at, lemma_held_text, same_text};

verus! {

/// Moves from a board, otherwise plain.
pub open spec fn board_config() -> SearchConfig {
    SearchConfig { gen: GenMode { ti_movegen: true, ..plain_config().gen }, ..plain_config() }
}

/// The configuration of a reference engine: the plain search, the one with moves
/// from a board and no ageing, or the one with moves from a board. Names with
/// `pmc` in them search early walls deeper.
pub open spec fn reference_config(flag: Seq<char>) -> SearchConfig {
    let base = if flag == "ace-v13-pure"@ {
        plain_config()
    } else if flag == "ace-v13-ti-pure"@ {
        SearchConfig { pure_mode: true, ..board_config() }
    } else {
        board_config()
    };
    SearchConfig { eme: exists|at: int| #[trigger] holds_at(flag, "pmc"@, at), ..base }
}

/// The search of a reference engine.
pub fn build_reference(engine_flag: &str, g: AceGame) -> (r: Box<AceSearch>)
    requires
        searchable(g),
    ensures
        r.ready(0),
        r.g == g,
        unlearnt(*r),
        r.config == reference_config(engine_flag@),
{
    let mut search: Box<AceSearch> = if same_text(engine_flag, "ace-v13-pure") {
        AceSearch::new(g)
    } else if same_text(engine_flag, "ace-v13-ti-pure") {
        AceSearch::with_ti_movegen_pure(g)
    } else {
        AceSearch::with_ti_movegen(g)
    };
    if contains_text(engine_flag, "pmc") {
        search.enable_eme();
    }
    search
}

/// The configuration for a single move.
pub open spec fn genmove_config(mode: EngineMode, eme: bool) -> SearchConfig {
    let base = match mode {
        EngineMode::Native => plain_config(),
        EngineMode::Board => board_config(),
        EngineMode::Heat => SearchConfig {
            gen: GenMode { cat_walls: true, ..plain_config().gen },
            ..plain_config()
        },
    };
    SearchConfig { eme, ..base }
}

/// The search for a single move.
pub fn build_genmove(mode: EngineMode, eme: bool, g: AceGame) -> (r: Box<AceSearch>)
    requires
        searchable(g),
    ensures
        r.ready(0),
        r.g == g,
        unlearnt(*r),
        r.config == genmove_config(mode, eme),
{
    let mut search: Box<AceSearch> = match mode {
        EngineMode::Native => AceSearch::new(g),
        EngineMode::Board => AceSearch::with_ti_movegen(g),
        EngineMode::Heat => AceSearch::with_cat(g),
    };
    if eme {
        search.enable_eme();
    }
    search
}

/// The configuration of an engine in a match, if this search plays for it.
pub open spec fn seat_config(engine: MatchEngine) -> Option<SearchConfig> {
    match engine {
        MatchEngine::TitaniumCert => None,
        MatchEngine::TitaniumPlain => None,
        MatchEngine::AceV13 => Some(board_config()),
        MatchEngine::AceV13Cert => Some(
            SearchConfig {
                eval: EvalMode { cheap_cert: true, ..plain_config().eval },
                ..board_config()
            },
        ),
        MatchEngine::AceV13AdaptiveTt => Some(board_config()),
        MatchEngine::AceV13Grafted => Some(grafted_config()),
    }
}

/// The index bits that the table of an engine in a match starts with.
pub open spec fn seat_bits(engine: MatchEngine, tt_bits: Option<usize>, start: usize) -> usize {
    match engine {
        MatchEngine::AceV13AdaptiveTt => start,
        MatchEngine::AceV13Grafted => match tt_bits {
            Some(b) => b,
            None => start,
        },
        _ => match tt_bits {
            Some(b) => b,
            None => TT_BITS,
        },
    }
}

/// The search of an engine in a match.
pub fn seat_search(
    engine: MatchEngine,
    g: AceGame,
    tt_bits: Option<usize>,
    tiers: (usize, usize, usize),
) -> (r: Option<Box<AceSearch>>)
    requires
        searchable(g),
        tt_bits matches Some(b) ==> b <= 31,
        tiers.0 <= 29,
        tiers.1 <= 30,
        tiers.2 <= 31,
    ensures
        match r {
            Some(s) => s.ready(0) && s.g == g && unlearnt(*s) && seat_config(engine) == Some(
                s.config,
            ) && s.tt.bits == seat_bits(engine, tt_bits, tiers.0),
            None => seat_config(engine) is None,
        },
{
    match engine {
        MatchEngine::TitaniumCert => None,
        MatchEngine::TitaniumPlain => None,
        MatchEngine::AceV13 => {
            let mut s: Box<AceSearch> = AceSearch::with_ti_movegen(g);
            if let Some(bits) = tt_bits {
                s.resize_tt(bits);
            }
            Some(s)
        },
        MatchEngine::AceV13Cert => Some(AceSearch::with_ti_movegen_cheap_cert(g, tt_bits)),
        MatchEngine::AceV13AdaptiveTt => Some(AceSearch::with_ti_movegen_adaptive_tt(g, tiers)),
        MatchEngine::AceV13Grafted => Some(AceSearch::grafted(g, tt_bits, tiers)),
    }
}

/// What the engines of single moves have in common and what tells them apart: only
/// the one in board mode takes its moves from a board, only the one in heat mode
/// leaves walls out by their heat, and early walls are searched deeper exactly if
/// that is asked for. All prove races by tables and none goes by classifier and
/// solver, stops to ponder or takes an iteration that was cut short.
pub proof fn lemma_single_move_engines(mode: EngineMode, eme: bool)
    ensures
        ({
            let c = genmove_config(mode, eme);
            &&& c.gen.ti_movegen <==> mode == EngineMode::Board
            &&& c.gen.cat_walls <==> mode == EngineMode::Heat
            &&& c.eme == eme
            &&& c.eval.race_proof && !c.eval.cheap_cert && !c.eval.cert_eval_leaves_only
            &&& !c.gen.dead_zone_prune && !c.use_partial_iter && !c.pure_mode && !c.is_pondering
        }),
{
}

/// The engines of a match: those of the first family search here, with moves from
/// a board; the certified and the grafted one go by classifier and solver, the
/// grafted one with certificates for leaves only. Given index bits are taken by
/// all but the one whose table grows by itself.
pub proof fn lemma_match_engines(engine: MatchEngine, bits: Option<usize>, start: usize)
    ensures
        seat_config(engine) is None <==> engine == MatchEngine::TitaniumCert || engine
            == MatchEngine::TitaniumPlain,
        seat_config(engine) matches Some(c) ==> {
            &&& c.gen.ti_movegen && !c.gen.cat_walls && !c.eme && !c.pure_mode && c.eval.race_proof
            &&& c.eval.cheap_cert <==> engine == MatchEngine::AceV13Cert || engine
                == MatchEngine::AceV13Grafted
            &&& c.eval.cert_eval_leaves_only <==> engine == MatchEngine::AceV13Grafted
        },
        engine != MatchEngine::AceV13AdaptiveTt && bits is Some ==> seat_bits(engine, bits, start)
            == bits->0,
        engine == MatchEngine::AceV13AdaptiveTt ==> seat_bits(engine, bits, start) == start,
        bits is None && engine == MatchEngine::AceV13Grafted ==> seat_bits(engine, bits, start)
            == start,
{
}

/// The reference engines: all but the pure one take their moves from a board, and
/// only the one that says so in its name is without ageing.
pub proof fn lemma_reference_engines(flag: Seq<char>)
    ensures
        ({
            let c = reference_config(flag);
            &&& c.gen.ti_movegen <==> flag != "ace-v13-pure"@
            &&& c.pure_mode <==> flag == "ace-v13-ti-pure"@
            &&& c.eme <==> exists|a: Seq<char>, z: Seq<char>| flag == #[trigger] ((a + "pmc"@) + z)
            &&& !c.eval.cheap_cert && !c.gen.cat_walls && !c.is_pondering
        }),
{
    reveal_strlit("ace-v13-pure");
    reveal_strlit("ace-v13-ti-pure");
    assert("ace-v13-pure"@.len() != "ace-v13-ti-pure"@.len());
    lemma_held_text(flag, "pmc"@);
}

} // verus!
