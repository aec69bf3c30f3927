//! The search, its tables, and the engine around it.

use titanium::ace::daemon::{build_search, Answer, Cmd, Daemon};
use titanium::ace::deepen::{gate_reserve, over_share, share_of, time_percent};
use titanium::ace::eval::{NetInput, MATE, RACE_MATE};
use titanium::ace::game::{AceGame, ACE_NO_MOVE};
use titanium::ace::reduction_sidecar::{
    read_sidecar, ReductionSidecar, SidecarError, INPUTS,
};
use titanium::ace::replay::{can_play, play_open, read_move, replay_onto, start_game, Outcome};
use titanium::ace::report::{progress_json, score_label};
use titanium::ace::search::{AceDepthLogEntry, AceSearch, Progress};
use titanium::ace::table::{Bound, Record, Table};
use titanium::position::board::{Board, Move};
use titanium::search::rootscores::root_scores;
use titanium::search::tt::TranspositionTable;
use titanium::util::clock::Deadline;

use sha2::{Digest, Sha256};

fn words(s: &str) -> Vec<String> {
    s.split_whitespace().map(String::from).collect()
}

fn net(x: NetInput) -> i32 {
    let one = x.goal0[x.pawn[0]] as i32;
    let two = x.goal1[x.pawn[1]] as i32;
    let lead = 100 * (two - one) + 10 * (x.wl[0] - x.wl[1]);
    if x.turn == 0 {
        lead
    } else {
        -lead
    }
}

fn quiet(_: Progress) {}

fn decay(h: i32, surprise: u32) -> i32 {
    if surprise > 100 {
        h / 2
    } else {
        h
    }
}

#[test]
fn labels_race_scores_as_forced_races() {
    assert_eq!(score_label(RACE_MATE - 30), "race win in 30");
    assert_eq!(score_label(-(RACE_MATE - 17)), "race loss in 17");
}

#[test]
fn labels_true_mate_scores_separately_from_races() {
    assert_eq!(score_label(MATE - 5), "mate in 5");
    assert_eq!(score_label(-(MATE - 9)), "mated in 9");
    assert_eq!(score_label(42), "cp 42");
}

#[test]
fn progress_is_one_line_of_json() {
    let p = Progress {
        label: "ace".to_string(),
        depth_log: vec![
            AceDepthLogEntry {
                depth: 1,
                score: -7,
                nodes: 10,
                elapsed_ms: 2,
                marginal_nodes: 10,
                pv: "e\"2\\".to_string(),
            },
            AceDepthLogEntry {
                depth: 2,
                score: 5,
                nodes: 30,
                elapsed_ms: 4,
                marginal_nodes: 20,
                pv: "e2 e8".to_string(),
            },
        ],
        search_depth: 2,
        nodes: 30,
        root_score: 5,
        white_dist: 8,
        black_dist: 7,
        elapsed_ms: 4,
    };
    assert_eq!(
        progress_json(&p),
        "info json {\"engine\":\"ace\",\"stoppedBy\":\"ace\",\"searchDepth\":2,\"nodes\":30,\"rootScore\":5,\"rootScoreText\":\"cp 5\",\"whiteDist\":8,\"blackDist\":7,\"elapsedMs\":4,\"depthLog\":[{\"depth\":1,\"score\":-7,\"scoreText\":\"cp -7\",\"nodes\":10,\"elapsedMs\":2,\"marginalNodes\":10,\"pv\":\"e\\\"2\\\\\"},{\"depth\":2,\"score\":5,\"scoreText\":\"cp 5\",\"nodes\":30,\"elapsedMs\":4,\"marginalNodes\":20,\"pv\":\"e2 e8\"}]}"
    );
}

fn trunk() -> [u8; 32] {
    Sha256::digest(b"weights").into()
}

fn blob() -> Vec<u8> {
    let mut bytes = Vec::new();
    bytes.extend_from_slice(b"TISRDX1\0");
    bytes.extend_from_slice(&1u32.to_le_bytes());
    bytes.extend_from_slice(&1u32.to_le_bytes());
    bytes.extend_from_slice(&(INPUTS as u32).to_le_bytes());
    bytes.extend_from_slice(&trunk());
    bytes.extend_from_slice(&1u32.to_le_bytes());
    bytes.extend_from_slice(&1u32.to_le_bytes());
    for _ in 0..INPUTS {
        bytes.extend_from_slice(&0.0f64.to_le_bytes());
    }
    bytes.extend_from_slice(&(-6.0f64).to_le_bytes());
    bytes.extend_from_slice(&1.0f64.to_le_bytes());
    bytes.extend_from_slice(&0.0f64.to_le_bytes());
    bytes.extend_from_slice(&0.99f64.to_le_bytes());
    let digest: [u8; 32] = Sha256::digest(&bytes).into();
    bytes.extend_from_slice(&digest);
    bytes
}

fn seal(bytes: &mut Vec<u8>) {
    let payload_end = bytes.len() - 32;
    let digest: [u8; 32] = Sha256::digest(&bytes[..payload_end]).into();
    bytes[payload_end..].copy_from_slice(&digest);
}

fn predict(s: &ReductionSidecar, hidden: &[f32; 32], context: &[f32; 5]) -> f64 {
    let mut z = f64::from_bits(s.bias);
    for i in 0..32 {
        z += f64::from_bits(s.weights[i]) * hidden[i] as f64;
    }
    for i in 0..5 {
        z += f64::from_bits(s.weights[32 + i]) * context[i] as f64;
    }
    z = f64::from_bits(s.calibration_scale) * z + f64::from_bits(s.calibration_shift);
    1.0 / (1.0 + (-z).exp())
}

#[test]
fn neutral_sidecar_favors_no_activation() {
    let sidecar = ReductionSidecar::from_bytes(&blob(), &trunk()).unwrap();
    let p = predict(&sidecar, &[0.5; 32], &[0.5; 5]);
    assert!(p < 0.01);
    assert!(!(p >= f64::from_bits(sidecar.threshold)));
}

#[test]
fn malformed_hash_and_trunk_fail_closed() {
    let mut bad_payload = blob();
    bad_payload[100] ^= 1;
    assert!(ReductionSidecar::from_bytes(&bad_payload, &trunk()).is_err());
    let mut bad_trunk = blob();
    bad_trunk[20] ^= 1;
    seal(&mut bad_trunk);
    assert!(ReductionSidecar::from_bytes(&bad_trunk, &trunk()).is_err());
}

#[test]
fn nan_fails_closed() {
    let mut bytes = blob();
    bytes[60..68].copy_from_slice(&f64::NAN.to_le_bytes());
    seal(&mut bytes);
    assert!(ReductionSidecar::from_bytes(&bytes, &trunk()).is_err());
}

#[test]
fn every_refusal_of_a_sidecar() {
    let error = |f: &dyn Fn(&mut Vec<u8>)| {
        let mut b = blob();
        f(&mut b);
        ReductionSidecar::from_bytes(&b, &trunk()).unwrap_err()
    };
    assert_eq!(error(&|b| b.push(0)), SidecarError::Size(421));
    assert_eq!(error(&|b| b[0] = 0), SidecarError::Magic);
    assert_eq!(error(&|b| b[8] = 2), SidecarError::Schema);
    assert_eq!(error(&|b| b[16] = 36), SidecarError::Schema);
    assert_eq!(error(&|b| b[20] ^= 1), SidecarError::Trunk);
    assert_eq!(error(&|b| b[52] = 9), SidecarError::Version);
    assert_eq!(error(&|b| b[100] ^= 1), SidecarError::Payload);
    let too_large = error(&|b| {
        b[380..388].copy_from_slice(&1.5f64.to_le_bytes());
        seal(b);
    });
    assert_eq!(too_large, SidecarError::Numbers);
    let negative_zero = {
        let mut b = blob();
        b[380..388].copy_from_slice(&(-0.0f64).to_le_bytes());
        seal(&mut b);
        ReductionSidecar::from_bytes(&b, &trunk())
    };
    assert!(negative_zero.is_ok());
    assert_eq!(SidecarError::Size(421).message(), "sidecar size mismatch: 421 != 420");
    assert_eq!(SidecarError::Trunk.message(), "sidecar trunk hash mismatch");
}

#[test]
fn a_given_digest_decides_the_payload() {
    let b = blob();
    let mut digest: [u8; 32] = [0; 32];
    digest.copy_from_slice(&b[388..]);
    let s = read_sidecar(&b, &trunk(), &digest).unwrap();
    assert_eq!(s.bias, (-6.0f64).to_bits());
    assert_eq!(s.threshold, 0.99f64.to_bits());
    digest[0] ^= 1;
    assert_eq!(read_sidecar(&b, &trunk(), &digest).unwrap_err(), SidecarError::Payload);
}

#[test]
fn a_replay_in_parts() {
    let all = words("e2 e8 e3 d7h e4");
    let mut whole = start_game();
    assert_eq!(replay_onto(&mut whole, &all, 0), Outcome::Done);
    let mut parts = start_game();
    assert_eq!(replay_onto(&mut parts, &words("e2 e8"), 0), Outcome::Done);
    assert_eq!(replay_onto(&mut parts, &all, 2), Outcome::Done);
    assert_eq!(whole.pawn, parts.pawn);
    assert_eq!(whole.wl, parts.wl);
    assert_eq!((whole.hash_lo, whole.hash_hi), (parts.hash_lo, parts.hash_hi));
}

#[test]
fn a_replay_stops_where_it_must() {
    let mut g = start_game();
    assert_eq!(replay_onto(&mut g, &words("e2 e5 e3"), 0), Outcome::Done);
    let mut g = start_game();
    assert_eq!(replay_onto(&mut g, &words("e2 zz"), 0), Outcome::Unplayable(1));
    let mut g = start_game();
    let long = words("e2 a9 e3 b9 e4 c9 e5 d9 e6 a9 e7 b9 e8 c9 e9 d9");
    assert_eq!(replay_onto(&mut g, &long, 0), Outcome::Past(15));
    assert_eq!(g.winner(), 0);
}

#[test]
fn names_and_moves() {
    let g = start_game();
    assert_eq!(read_move(&g, "e2"), Some(67));
    assert_eq!(read_move(&g, "a1h"), Some(156));
    assert_eq!(read_move(&g, "j2"), None);
    assert_eq!(read_move(&g, "e"), None);
    assert!(can_play(&g, 67));
}

#[test]
fn a_search_finds_a_legal_move() {
    let mut s = AceSearch::new(start_game());
    let r = s.think(5_000, 3, false, false, "ace", &net, &quiet);
    assert!((0..81).contains(&r.mv) || (100..164).contains(&r.mv) || (200..264).contains(&r.mv));
    assert!(can_play(&s.g, r.mv));
    assert!(r.depth <= 3);
    assert!(r.score.abs() <= MATE);
    assert_eq!(r.white_dist, 8);
    assert_eq!(r.black_dist, 8);
    assert_eq!(r.depth_log.len() as i32, r.depth);
}

#[test]
fn a_search_steps_onto_the_goal() {
    let mut g = start_game();
    let line = words("e2 a9 e3 b9 e4 c9 e5 d9 e6 a9 e7 b9 e8 c9");
    assert_eq!(replay_onto(&mut g, &line, 0), Outcome::Done);
    let mut s = AceSearch::with_ti_movegen(g);
    let r = s.think(5_000, 2, false, false, "ace", &net, &quiet);
    assert!(r.mv < 9, "arrives: {}", r.mv);
    assert_eq!(r.score, MATE - 1);
}

#[test]
fn a_table_at_hand_values_a_race() {
    let mut g = start_game();
    let line = full_hands();
    assert_eq!(replay_onto(&mut g, &line, 0), Outcome::Done);
    let mut s = AceSearch::grafted(g, Some(12), (12, 13, 14));
    s.config.eval.cheap_cert = false;
    s.config.eval.race_proof = true;
    s.config.eval.cert_eval_leaves_only = false;
    let still = Deadline::still(0, 1000);
    assert_eq!(s.race.race_tbl(&s.g, false, &still), None);
    let slot = s.race.race_tbl(&s.g, true, &still).unwrap();
    let v = s.race.race_value(slot, &s.g) as i32;
    assert_ne!(v, 0);
    let score = if v > 0 { RACE_MATE - v } else { -(RACE_MATE + v) };
    assert_eq!(s.eval_position(&net), score);
    let r = s.think_by(&still, 10, false, false, "ace", &net, &quiet);
    assert_eq!((r.depth, r.score), (99, score));
    assert!(r.depth_log.is_empty());
}

fn full_hands() -> Vec<String> {
    let mut line = Vec::new();
    for k in 0..8 {
        for w in 0..2 {
            let col = [b'a', b'c', b'e', b'g'][k % 4] as char;
            line.push(format!("{col}{}h", 1 + 4 * (k / 4) + 2 * w));
        }
    }
    line.extend(words("a2v c2v e2v g2v"));
    line
}

#[test]
fn a_race_without_walls_is_settled() {
    let mut g = start_game();
    let mut line = Vec::new();
    for k in 0..8 {
        for w in 0..2 {
            let col = [b'a', b'c', b'e', b'g'][k % 4] as char;
            line.push(format!("{col}{}h", 1 + 4 * (k / 4) + 2 * w));
        }
    }
    line.extend(words("a2v c2v e2v g2v"));
    assert_eq!(replay_onto(&mut g, &line, 0), Outcome::Done);
    assert_eq!(g.wl, [0, 0]);
    let mut s = AceSearch::grafted(g, Some(12), (12, 13, 14));
    let r = s.think(2_000, 10, false, false, "ace", &net, &quiet);
    assert!(can_play(&s.g, r.mv));
    assert!(r.mv < 81);
    assert!(r.score.abs() >= RACE_MATE - 200 && r.score.abs() <= RACE_MATE);
}

#[test]
fn a_search_follows_the_game() {
    let mut s = AceSearch::with_ti_movegen(start_game());
    s.apply_move(67);
    assert_eq!(s.g.pawn[0], 67);
    assert_eq!(s.g.turn, 1);
    s.set_position(start_game());
    assert_eq!(s.g.pawn[0], 76);
    assert_eq!(s.geometric_legal_wall_count(), 128);
    let v = s.eval_position(&net);
    assert!(v.abs() < MATE);
}

#[test]
fn engine_names_choose_the_search() {
    let tiers = (12, 13, 14);
    assert!(!build_search("ace-v13-pure", start_game(), tiers).config.gen.ti_movegen);
    let pure = build_search("ace-v13-ti-pure", start_game(), tiers);
    assert!(pure.config.gen.ti_movegen && pure.config.pure_mode);
    let full = build_search("ace-v13", start_game(), tiers);
    assert!(full.config.eval.cheap_cert && !full.config.eme);
    assert!(build_search("ace-v13-ti-pmc", start_game(), tiers).config.eme);
}

#[test]
fn the_engine_ponders_and_answers() {
    let mut d = Daemon::new("ace-v13", (12, 13, 14));
    assert_eq!(
        d.obey(Cmd::StopAndGet, "ace", &net, &quiet, &decay),
        Answer::BestMove(ACE_NO_MOVE)
    );
    match d.obey(Cmd::GoTimed(50), "ace", &net, &quiet, &decay) {
        Answer::BestMove(m) => assert!(can_play(&d.search.g, m)),
        other => panic!("{other:?}"),
    }
    assert_eq!(d.obey(Cmd::GoInfinite(67), "ace", &net, &quiet, &decay), Answer::Nothing);
    assert!(d.pondering);
    d.ponder("ace", &net, &quiet);
    assert!(d.last_mv != ACE_NO_MOVE);
    let found = d.last_mv;
    assert_eq!(
        d.obey(Cmd::StopAndGet, "ace", &net, &quiet, &decay),
        Answer::BestMove(found)
    );
    assert!(!d.pondering);
    assert_eq!(d.obey(Cmd::GoInfinite(ACE_NO_MOVE), "ace", &net, &quiet, &decay), Answer::Nothing);
    match d.obey(Cmd::GoTimed(20), "ace", &net, &quiet, &decay) {
        Answer::BestMove(m) => assert!(can_play(&d.search.g, m)),
        other => panic!("{other:?}"),
    }
    assert!(!d.pondering);
    let mut other = start_game();
    play_open(&mut other, 67);
    let miss = Cmd::MoveMiss { new_game: other, time_ms: 30 };
    match d.obey(miss, "ace", &net, &quiet, &decay) {
        Answer::BestMove(m) => assert!(can_play(&d.search.g, m)),
        other => panic!("{other:?}"),
    }
    assert_eq!(d.search.g.turn, 1);
    assert_eq!(d.obey(Cmd::SetGame(start_game()), "ace", &net, &quiet, &decay), Answer::Nothing);
    assert_eq!(d.search.g.turn, 0);
    assert_eq!(d.obey(Cmd::Quit, "ace", &net, &quiet, &decay), Answer::Gone);
}

#[test]
fn shares_of_the_time() {
    assert_eq!(time_percent(0), 85);
    assert_eq!(time_percent(-81), 92);
    assert!(over_share(61, 100, 60));
    assert!(!over_share(59, 100, 60));
    assert_eq!(share_of(1000, 60), 600);
    assert_eq!(gate_reserve(1000, 5), 150);
    assert_eq!(gate_reserve(1000, 200), 200);
    assert_eq!(gate_reserve(1000, 900), 300);
    assert_eq!(gate_reserve(100, 5), 25);
}

fn record(depth: i32, score: i32) -> Record {
    Record { mv: 67, bound: Bound::Exact, depth, score, tainted: false, anc_lo: 0, anc_hi: 0 }
}

#[test]
fn a_table_gives_back_what_it_took() {
    let mut t = Table::new(8);
    assert!(t.probe(5, 6).is_none());
    t.store(5, 6, record(3, 40), false);
    let e = t.probe(5, 6).unwrap();
    assert_eq!((e.mv, e.depth, e.score), (67, 3, 40));
    t.store(5, 6, record(2, 41), false);
    assert_eq!(t.probe(5, 6).unwrap().score, 40);
    t.next_generation();
    t.store(5, 6, record(2, 41), false);
    assert_eq!(t.probe(5, 6).unwrap().score, 41);
    assert_eq!(t.filled, 1);
    t.resize(9);
    assert!(t.probe(5, 6).is_none());
}

#[test]
fn a_growing_table_keeps_its_entries() {
    let mut t = Table::new(4);
    t.enable_adaptive(2, 4, 6);
    assert_eq!(t.bits, 2);
    t.store(0, 9, record(1, 1), false);
    t.store(1, 9, record(1, 2), false);
    assert!(t.bits > 2);
    assert_eq!(t.probe(0, 9).unwrap().score, 1);
    assert_eq!(t.probe(1, 9).unwrap().score, 2);
}

#[test]
fn counts_are_found_again() {
    let mut t = TranspositionTable::new(Some(8), None, None);
    assert_eq!(t.bits, 8);
    assert!(!t.adaptive);
    t.store(77, 3, 5, 1234);
    assert_eq!(t.probe(77, 3, 5), Some(1234));
    assert_eq!(t.probe(77, 4, 5), None);
    assert_eq!(t.probe(77, 3, 4), None);
    t.store(77, 3, 4, 9);
    assert_eq!(t.probe(77, 3, 5), Some(1234));
    t.clear();
    assert_eq!(t.probe(77, 3, 5), None);
    assert_eq!(TranspositionTable::new(Some(3), Some(9), Some(8)).max_bits, 9);
}

#[test]
fn counts_survive_growth() {
    let mut t = TranspositionTable::new(None, Some(8), Some(12));
    for k in 1..=700u64 {
        t.store(k, k as u32, 2, k * 10);
    }
    assert!(t.bits > 8);
    for k in 1..=700u64 {
        assert_eq!(t.probe(k, k as u32, 2), Some(k * 10));
    }
}

#[test]
fn a_clock_that_stands_still_lets_every_depth_run() {
    let mut s = AceSearch::new(start_game());
    let before = s.tt.generation;
    let r = s.think_by(&Deadline::still(0, 1000), 3, false, false, "t", &net, &quiet);
    let depths: Vec<i32> = r.depth_log.iter().map(|e| e.depth).collect();
    assert_eq!(depths, vec![1, 2, 3]);
    assert_eq!((r.depth, r.ms), (3, 0));
    assert_eq!(s.tt.generation, before + 1);
    assert_eq!(s.deadline.budget_ms(), 1000);
    assert!(!s.expired);
}

#[test]
fn a_clock_past_the_budget_lets_none_run() {
    let mut s = AceSearch::new(start_game());
    s.memory.history[120] = 40;
    let r = s.think_by(&Deadline::still(5_000_000, 5), 3, false, false, "t", &net, &quiet);
    assert!(r.depth_log.is_empty());
    assert_eq!((r.depth, r.nodes, r.ms), (0, 0, 5));
    assert_ne!(r.mv, ACE_NO_MOVE);
    assert_eq!(s.memory.history[120], 20);
    s.set_pondering(true);
    let before = s.tt.generation;
    s.think_by(&Deadline::still(5_000_000, 5), 3, false, false, "t", &net, &quiet);
    assert_eq!(s.tt.generation, before);
    assert_eq!(s.memory.history[120], 20);
}

#[test]
fn a_missed_guess_damps_what_was_learnt() {
    let mut d = Daemon::new("ace-v13-pure", (10, 11, 12));
    let late = Deadline::still(u64::MAX as u128 * 1_000_000, 0);
    d.last_score = 500;
    d.search.memory.history[130] = 64;
    let miss = |ms: u64| Cmd::MoveMiss { new_game: start_game(), time_ms: ms };
    assert_eq!(
        d.obey_by(Cmd::GoInfinite(ACE_NO_MOVE), &late, "t", &net, &quiet, &decay),
        Answer::Nothing
    );
    let a = d.obey_by(miss(7), &late, "t", &net, &quiet, &decay);
    assert!(matches!(a, Answer::BestMove(m) if m != ACE_NO_MOVE));
    assert_eq!(d.search.deadline.budget_ms(), 7);
    assert_eq!(d.search.memory.history[130], 16);
    assert_eq!(d.last_score, 0);
    d.last_score = 500;
    d.obey_by(miss(9), &late, "t", &net, &quiet, &decay);
    assert_eq!(d.search.deadline.budget_ms(), 9);
    assert_eq!(d.search.memory.history[130], 8);
}

#[test]
fn stretches_of_pondering_have_a_length() {
    let mut d = Daemon::new("ace-v13-pure", (10, 11, 12));
    let late = Deadline::still(u64::MAX as u128 * 1_000_000, 0);
    d.obey_by(Cmd::GoInfinite(ACE_NO_MOVE), &late, "t", &net, &quiet, &decay);
    d.last_score = 77;
    d.ponder_by(&late, "t", &net, &quiet);
    assert_eq!(d.search.deadline.budget_ms(), 100);
    assert_eq!(d.last_score, 0);
    assert_ne!(d.last_mv, ACE_NO_MOVE);
    assert!(d.pondering);
}

fn minimax(g: &AceGame, depth: i32, ply: i32) -> i32 {
    if g.winner() >= 0 {
        return -(MATE - ply);
    }
    if depth == 0 {
        let mut s = AceSearch::new(g.duplicate());
        s.config.eval.race_proof = false;
        return s.eval_position(&net);
    }
    let mut buf = [0i16; 16];
    let n = g.gen_pawn_moves(&mut buf, 0);
    (0..n)
        .map(|i| {
            let mut next = g.duplicate();
            play_open(&mut next, buf[i]);
            -minimax(&next, depth - 1, ply + 1)
        })
        .max()
        .unwrap()
}

#[test]
fn a_search_of_some_plies_is_their_minimax() {
    let mut g = start_game();
    assert_eq!(replay_onto(&mut g, &full_hands(), 0), Outcome::Done);
    for depth in 1..=2 {
        let mut s = AceSearch::new(g.duplicate());
        s.config.eval.race_proof = false;
        let r = s.think_by(&Deadline::still(0, 1000), depth, true, false, "t", &net, &quiet);
        assert_eq!(r.depth, depth);
        assert_eq!(r.score, minimax(&g, depth, 0));
        let mut next = g.duplicate();
        play_open(&mut next, r.mv);
        assert_eq!(r.score, -minimax(&next, depth - 1, 1));
    }
}

#[test]
fn a_new_game_forgets_what_was_learnt() {
    let mut s = AceSearch::new(start_game());
    let fresh = s.think_by(&Deadline::still(0, 1000), 3, true, false, "t", &net, &quiet);
    assert!(s.tt.filled > 0);
    s.apply_move(fresh.mv);
    s.memory.history[150] = 9;
    s.memory.k0[3] = 150;
    s.new_game();
    assert_eq!(s.tt.filled, 0);
    assert_eq!((s.memory.history[150], s.memory.k0[3]), (0, 0));
    assert_eq!((s.g.turn, s.g.pawn), (0, [76, 4]));
}

#[test]
fn a_report_tells_where_the_search_is() {
    let mut s = AceSearch::new(start_game());
    let r = s.think_by(&Deadline::still(7_000_000, 1000), 2, true, true, "name", &net, &quiet);
    let p = s.stream.progress(&s.g, 12);
    assert_eq!((p.label.as_str(), p.nodes, p.elapsed_ms), ("name", 12, 7));
    assert_eq!((p.search_depth, p.root_score), (2, r.score));
    assert_eq!((p.white_dist, p.black_dist), (8, 8));
    assert_eq!(p.depth_log.len(), 2);
}

#[test]
fn root_moves_are_scored_by_value_and_by_search() {
    let board = Board::new();
    let g = start_game();
    let by_value = root_scores(&board, &g, 0, 0, &net, &quiet);
    assert_eq!(by_value.len(), 131);
    let ahead = by_value.iter().find(|x| x.0 == Move::Pawn { row: 1, col: 4 }).unwrap();
    assert_eq!(ahead.1, 100);
}
