//! Texts for people and programs, and the words of the board commands.

use titanium::ace::dump::{dump_json, Planes};
use titanium::ace::engines::{build_genmove, build_reference, seat_search};
use titanium::ace::eval::NetInput;
use titanium::ace::replay::{can_play, play_open, start_game};
use titanium::ace::report::result_json;
use titanium::ace::search::{AceDepthLogEntry, AceSearch, Progress};
use titanium::ace::think::ThinkResult;
use titanium::arena::MatchEngine;
use titanium::bench_instr::{BenchInstr, Op, OpRates, OPS};
use titanium::cli::EngineMode;
use titanium::commands::{
    load_board, parse_genmove_config, parse_lmr, parse_rollout, walk_names, GenmoveConfig,
    GenmoveEngine,
};
use titanium::position::board::Board;
use titanium::search::cat_index_lmr::Ratio;
use titanium::search::lmr_json::{
    format_lmr_plans_json, lmr_profile_fields, lmr_snapshot_json, ProfileTexts,
};
use titanium::search::lmr_viz::{LmrProfile, RootLmrPlan};
use titanium::util::clock::{is_past, is_past_with, is_used_up, whole_ms};

fn words(s: &str) -> Vec<String> {
    s.split_whitespace().map(String::from).collect()
}

fn times(list: &[String]) -> Vec<Option<u64>> {
    list.iter().map(|w| w.parse().ok()).collect()
}

fn net(x: NetInput) -> i32 {
    let one = x.goal0[x.pawn[0]] as i32;
    let two = x.goal1[x.pawn[1]] as i32;
    let lead = 100 * (two - one) + 10 * (x.wl[0] - x.wl[1]);
    if x.turn == 0 {
        lead
    } else {
        -lead
    }
}

fn planes(_: NetInput) -> Planes {
    Planes {
        delta0: [0; 81],
        delta1: [1; 81],
        cross0: [2; 81],
        cross1: [3; 81],
        choke0: [4; 81],
        choke1: [5; 81],
        contested: [6; 81],
    }
}

fn quiet(_: Progress) {}

fn list(v: u8, n: usize) -> String {
    vec![v.to_string(); n].join(",")
}

#[test]
fn features_as_json() {
    let mut s = AceSearch::new(start_game());
    let t = s.eval_dump_json(&net, &planes);
    assert!(t.starts_with(
        "{\"turn\":0,\"pawn0\":76,\"pawn1\":4,\"wl0\":10,\"wl1\":10,\"d0\":8,\"d1\":8,\"legal_wall_count\":128,\"corridor_width0\":9,\"corridor_width1\":9,\"goal_inv_p0_field\":[0,0,"
    ));
    assert!(t.contains(&format!(",\"corridor_delta_p1_field\":[{}]", list(1, 81))));
    assert!(t.contains(&format!(",\"choke_p0_field\":[{}]", list(4, 81))));
    assert!(t.contains(&format!(",\"contested_field\":[{}],\"d0_field\":[", list(6, 81))));
    assert!(t.ends_with(&format!(
        ",\"hw\":[{}],\"vw\":[{}],\"eval\":0}}",
        list(0, 64),
        list(0, 64)
    )));
}

#[test]
fn features_of_given_numbers() {
    let x = NetInput {
        turn: 1,
        pawn: [3, 80],
        wl: [1, -2],
        hw: [0; 64],
        vw: [1; 64],
        goal0: [7; 81],
        goal1: [9; 81],
        steps0: [1; 81],
        steps1: [2; 81],
        legal_walls: 5,
        width_opp: 0,
    };
    let t = dump_json(&x, &planes(x), -31);
    assert!(t.starts_with(
        "{\"turn\":1,\"pawn0\":3,\"pawn1\":80,\"wl0\":1,\"wl1\":-2,\"d0\":7,\"d1\":9,\"legal_wall_count\":5,\"corridor_width0\":81,\"corridor_width1\":81,"
    ));
    assert!(t.ends_with(&format!(",\"vw\":[{}],\"eval\":-31}}", list(1, 64))));
}

#[test]
fn counters_as_json() {
    let mut b = BenchInstr::new();
    b.record(Op::Evaluate, 30);
    b.set_stop_reason("depth");
    b.end_search(12);
    let rates: Vec<OpRates> = (0..OPS)
        .map(|i| OpRates {
            calls_per_node: format!("{i}.0000"),
            ns_per_call: "0.0".to_string(),
            pct_measured: "0.00".to_string(),
        })
        .collect();
    let t = b.to_json(&rates);
    assert!(t.starts_with(
        "{\"search_nodes\":12,\"measured_ns\":0,\"stop_reason\":\"depth\",\"ops\":[{\"op\":\"evaluate\",\"calls\":1,\"calls_per_node\":0.0000,\"total_ns\":30,\"ns_per_call\":0.0,\"pct_measured\":0.00},{\"op\":\"eval_race_bound\",\"calls\":0,\"calls_per_node\":1.0000,"
    ));
    assert!(t.ends_with(
        "{\"op\":\"nnue_incr_update\",\"calls\":0,\"calls_per_node\":30.0000,\"total_ns\":0,\"ns_per_call\":0.0,\"pct_measured\":0.00}]}"
    ));
    for i in 0..OPS {
        assert_eq!(Op::of_index(i).index(), i);
    }
}

fn plan(mv: &str) -> RootLmrPlan {
    RootLmrPlan {
        mv: mv.to_string(),
        is_pawn: true,
        order: 0,
        cat_cm: -4,
        tactical: true,
        hot: false,
        cold: true,
        pruned: false,
        baseline_reduction: 1,
        baseline_child_depth_full: 7,
        baseline_child_depth_used: 6,
        reduction: 2,
        child_depth_full: 7,
        child_depth_used: 5,
        reduction_clamped: false,
        in_full_window: true,
        attention_ratio: Ratio { part: 1, whole: 4 },
        dead_tail: false,
        ace_base_reduction: 1,
        hard_override: "none",
        final_reduction: 2,
    }
}

#[test]
fn plans_as_json() {
    let one = "{\"move\":\"e2\",\"kind\":\"pawn\",\"order\":0,\"catCm\":-4,\"tactical\":true,\"hot\":false,\"cold\":true,\"pruned\":false,\"baselineReductionFp\":1.0000,\"baselineReduction\":1,\"baselineChildDepthFull\":7,\"baselineChildDepthUsed\":6,\"requestedReductionFp\":2.0000,\"reduction\":2,\"childDepthFull\":7,\"childDepthUsed\":5,\"reductionClamped\":false,\"inFullWindow\":true,\"attentionRatio\":0.2500,\"deadTail\":false,\"aceBaseReduction\":1,\"hardOverride\":\"none\",\"finalReduction\":2}";
    let t = format_lmr_plans_json(&vec![plan("e2")], &words("0.2500"), "1.0000", "2.0000");
    assert_eq!(
        t,
        format!("\"summary\":{{\"movesMoreReduction\":1,\"avgBaselineReductionFp\":1.0000,\"avgAdjustedReductionFp\":2.0000,\"maxBaselineReduction\":1,\"maxAdjustedReduction\":2,\"hotCount\":0,\"coldCount\":1}},\"moves\":[{one}]")
    );
    let p = lmr_profile_fields(
        &LmrProfile { cold_cm: 60, hot_ratio_pct: 72 },
        &ProfileTexts {
            stage_t: "0.500".to_string(),
            aggression: "1.00".to_string(),
            pierce_t: "0.000".to_string(),
            move_window: 6,
            lmr_after_move: 4,
        },
        8,
    );
    assert_eq!(
        p,
        "{\"stageT\":0.500,\"aggression\":1.00,\"pierceT\":0.000,\"moveWindow\":6,\"lmrAfter\":4,\"hotPct\":72,\"coldCm\":60,\"idDepth\":8}"
    );
    assert_eq!(
        lmr_snapshot_json(8, 900, -700, "{}", "x"),
        "{\"source\":\"shallow\",\"idDepth\":8,\"timeMs\":900,\"lmrAggressionPercent\":-500,\"lmrTuningPercent\":-500,\"lmrProfile\":{},x}"
    );
    assert!(lmr_snapshot_json(8, 900, 151, "{}", "x").contains("Percent\":150,"));
}

#[test]
fn a_result_as_json() {
    let r = ThinkResult {
        mv: 67,
        score: -3,
        depth: 1,
        nodes: 9,
        ms: 2,
        white_dist: 8,
        black_dist: 7,
        depth_log: vec![AceDepthLogEntry {
            depth: 1,
            score: -3,
            nodes: 9,
            elapsed_ms: 2,
            marginal_nodes: 9,
            pv: "e2".to_string(),
        }],
    };
    assert_eq!(
        result_json("ace", &r),
        "info json {\"engine\":\"ace\",\"stoppedBy\":\"ace\",\"searchDepth\":1,\"nodes\":9,\"rootScore\":-3,\"whiteDist\":8,\"blackDist\":7,\"elapsedMs\":2,\"depthLog\":[{\"depth\":1,\"score\":-3,\"nodes\":9,\"elapsedMs\":2,\"marginalNodes\":9,\"pv\":\"e2\"}]}"
    );
}

#[test]
fn one_ply_picks_the_best_value() {
    let mut s = AceSearch::new(start_game());
    let r = s.think(10_000, 1, false, false, "ace", &net, &quiet);
    assert_eq!(r.depth, 1);
    let mut best = i32::MIN;
    let mut of_move = 0;
    for m in (0..81).chain(100..164).chain(200..264) {
        let g = start_game();
        let legal = if m < 81 { [75, 77, 67].contains(&m) } else { can_play(&g, m) };
        if !legal {
            continue;
        }
        let mut after = start_game();
        play_open(&mut after, m);
        let v = -AceSearch::new(after).eval_position(&net);
        best = best.max(v);
        if m == r.mv {
            of_move = v;
        }
    }
    assert_eq!(r.score, best);
    assert_eq!(of_move, best);
}

#[test]
fn engines_of_names() {
    assert!(!build_reference("ace-v13-pure", start_game()).config.gen.ti_movegen);
    assert!(build_reference("ace-v13-ti-pure", start_game()).config.pure_mode);
    let r = build_reference("ace-v13-ti-pmc", start_game());
    assert!(r.config.gen.ti_movegen && r.config.eme && !r.config.eval.cheap_cert);
    assert!(build_genmove(EngineMode::Heat, false, start_game()).config.gen.cat_walls);
    assert!(build_genmove(EngineMode::Native, true, start_game()).config.eme);
    let tiers = (12, 13, 14);
    assert!(seat_search(MatchEngine::TitaniumCert, start_game(), None, tiers).is_none());
    let s = seat_search(MatchEngine::AceV13, start_game(), Some(10), tiers).unwrap();
    assert_eq!(s.tt.bits, 10);
    let s = seat_search(MatchEngine::AceV13AdaptiveTt, start_game(), Some(10), tiers).unwrap();
    assert_eq!(s.tt.bits, 12);
    let s = seat_search(MatchEngine::AceV13Cert, start_game(), None, tiers).unwrap();
    assert!(s.config.eval.cheap_cert && !s.config.eval.cert_eval_leaves_only);
    assert_eq!(s.tt.bits, 20);
}

#[test]
fn boards_of_words() {
    let (b, d) = load_board(&words("app perft 5 e2 e8"), 2);
    assert_eq!(d, 5);
    let mut want = Board::new();
    want.apply_algebraic("e2");
    want.apply_algebraic("e8");
    assert_eq!(b, Some(want));
    assert_eq!(load_board(&words("app perft"), 2), (Some(Board::new()), 3));
    assert_eq!(load_board(&words("app perft x"), 2).1, 3);
    assert_eq!(load_board(&words("app perft 1 zz"), 2).0, None);
    assert_eq!(walk_names(want, &words("e2 e8"), 2), Some(want));
}

#[test]
fn words_of_a_picture() {
    let args = words("app lmr --time 7 --depth 12 --x 5 e2 --y e8 junk");
    let r = parse_lmr(&args, &times(&args), 900);
    assert_eq!((r.time_ms, r.depth), (7, 12));
    assert_eq!(r.moves, words("e2 e8"));
    let none = words("app lmr --time x");
    let r = parse_lmr(&none, &times(&none), 900);
    assert_eq!((r.time_ms, r.depth), (900, 8));
}

#[test]
fn words_of_a_comparison() {
    let args = words("app rollout --sims 4294967301 --plies 9 --cmp-depth 3 --seed 8 --time 2 e2");
    let r = parse_rollout(&args, &times(&args));
    assert_eq!((r.sims, r.plies, r.depth, r.seed, r.time_ms), (5, 9, 3, 8, 2));
    assert_eq!(r.moves, words("e2"));
    let none = words("app rollout --sims");
    let r = parse_rollout(&none, &times(&none));
    assert_eq!((r.sims, r.plies, r.depth, r.seed, r.time_ms), (64, 24, 8, 1, 5000));
}

fn base() -> GenmoveConfig {
    GenmoveConfig {
        engine: GenmoveEngine::Minimax,
        time_ms: 1,
        max_simulations: 2,
        uct: None,
        max_nodes: 3,
        log: false,
        use_cat_guidance: false,
        moves: Vec::new(),
    }
}

#[test]
fn words_of_a_single_move() {
    let args = words("app genmove --engine greedy --time 5 --sims 6 --uct 7 --nodes 8 --log --cat e2 --z e8");
    let r = parse_genmove_config(&args, &times(&args), base());
    assert_eq!(r.engine, GenmoveEngine::Greedy);
    assert_eq!((r.time_ms, r.max_simulations, r.max_nodes), (5, 6, 8));
    assert_eq!(r.uct, Some(9));
    assert!(r.log && r.use_cat_guidance);
    assert_eq!(r.moves, words("e2 e8"));
    let args = words("app genmove --engine ab --sims x --engine");
    let r = parse_genmove_config(&args, &times(&args), base());
    assert_eq!(r.engine, GenmoveEngine::Minimax);
    assert_eq!(r.max_simulations, 2);
    assert_eq!(r.moves, words("x"));
    let args = words("app genmove --engine other");
    assert_eq!(parse_genmove_config(&args, &times(&args), base()).engine, GenmoveEngine::Mcts);
}

#[test]
fn a_single_move_without_an_engine_is_searched_by_playouts() {
    let args = words("titanium genmove e2 --log");
    let base = GenmoveConfig::by_default(2000, 10, 20, false);
    let r = parse_genmove_config(&args, &times(&args), base);
    assert_eq!(r.engine, GenmoveEngine::Mcts);
    assert!(r.log && !r.use_cat_guidance);
    assert_eq!(r.moves, words("e2"));
    assert_eq!((r.time_ms, r.max_simulations, r.max_nodes, r.uct), (2000, 10, 20, None));
}

#[test]
fn budgets() {
    assert_eq!(whole_ms(1_999_999), 1);
    assert_eq!(whole_ms(u128::MAX), u64::MAX);
    assert!(is_past(2_000_001, 2) && !is_past(2_000_000, 2));
    assert!(is_used_up(2_000_000, 2) && !is_used_up(1_999_999, 2));
    assert!(is_past_with(1_000_001, 1, 2) && !is_past_with(1_000_000, 1, 2));
    assert!(is_past_with(u128::MAX, 1, 2));
}
