//! Commands, their words, and matches.

use titanium::ace::eval::NetInput;
use titanium::ace::search::Progress;
use titanium::ace::session::{bestmove, reply, Action, Fault, Session, Span};
use titanium::arena::{
    adjudicate, match_pairs, match_random_opening, parse_match, Contest, MatchEngine, Tally, Turn,
};
use titanium::bench_instr::{BenchInstr, Op, OpTimer};
use titanium::cat::order::{mirror_move, rank};
use titanium::cli::{
    ace_engine_flag, ace_engine_mode, is_acev13, looks_like_algebraic_move, parse_cli,
    parse_genmove_ace, EngineMode,
};
use titanium::duel::{play_one_game, DuelArgs};
use titanium::movegen::study::{walk, FloodStats};
use titanium::path::bfs::BfsScratch;
use titanium::position::board::{Board, Move, Player, WallOrientation};
use titanium::search::agreement::compare_rankings;
use titanium::search::uci::{parse_go, parse_uci, unknown_reply, GoLimits, UciCommand};
use titanium::util::text::{
    begins_with, contains_text, parse_number, parse_signed, push_decimal, push_integer, same_text,
};

fn words(s: &str) -> Vec<String> {
    s.split_whitespace().map(String::from).collect()
}

fn times(list: &[String]) -> Vec<Option<u64>> {
    list.iter().map(|w| w.parse().ok()).collect()
}

fn spans(list: &[String]) -> Vec<Option<Span>> {
    list.iter()
        .map(|w| w.parse::<u64>().ok().map(|n| Span { of_seconds: n * 1000, of_millis: n }))
        .collect()
}

fn handle(s: &mut Session, line: &str) -> (Action, Vec<String>) {
    let mut list = words(line);
    let command = list.remove(0);
    let t = spans(&list);
    (s.handle(&command, &list, &t), list)
}

fn said(s: &mut Session, line: &str) -> Option<String> {
    let (a, list) = handle(s, line);
    reply(a, &list)
}

#[test]
fn a_session_answers() {
    let mut s = Session::new(false);
    assert_eq!(said(&mut s, "reset").as_deref(), Some("ready"));
    assert_eq!(said(&mut s, "position e2 e8").as_deref(), Some("ready 2"));
    assert_eq!(said(&mut s, "makemove e3").as_deref(), Some("ready"));
    assert_eq!(said(&mut s, "makemove").as_deref(), Some("error makemove requires a move"));
    assert_eq!(said(&mut s, "hello").as_deref(), Some("error unknown command"));
    assert_eq!(said(&mut s, "stop").as_deref(), Some("error unknown command"));
    assert_eq!(handle(&mut s, "go 2").0, Action::Think(2000));
    assert_eq!(handle(&mut s, "go").0, Action::Think(4000));
    assert_eq!(handle(&mut s, "makemove zz").0, Action::Unplayable(0));
    assert_eq!(handle(&mut s, "quit").0, Action::Quit);
    assert_eq!(s.applied, words("e2 e8 e3"));
}

#[test]
fn a_session_that_ponders() {
    let mut s = Session::new(true);
    assert_eq!(handle(&mut s, "position e2").0, Action::ReadyCount(1));
    assert_eq!(handle(&mut s, "stop").0, Action::Stop);
    assert_eq!(handle(&mut s, "movemiss").0, Action::Fault(Fault::NoMiss));
    assert_eq!(
        said(&mut s, "movemiss").as_deref(),
        Some("error movemiss requires MOVE TIME_MS")
    );
    assert_eq!(handle(&mut s, "movemiss e8 70").0, Action::MoveMiss(70));
    assert_eq!(s.applied, words("e2 e8"));
    assert_eq!(handle(&mut s, "ponderhit 500").0, Action::PonderHit(500));
    assert_eq!(handle(&mut s, "ponderhit").0, Action::PonderHit(5000));
}

#[test]
fn a_finished_game_takes_no_moves() {
    let mut s = Session::new(false);
    let line = "position e2 a9 e3 b9 e4 c9 e5 d9 e6 a9 e7 b9 e8 c9 e9";
    assert_eq!(handle(&mut s, line).0, Action::ReadyCount(15));
    assert_eq!(said(&mut s, "go 10").as_deref(), Some("error terminal position"));
    let long = format!("{line} d9");
    assert_eq!(said(&mut s, &long).as_deref(), Some("error move d9 past terminal position"));
}

#[test]
fn a_session_keeps_game_and_names_together() {
    let mut s = Session::new(false);
    for line in ["position e2 e8 e3", "makemove d7h", "position e2 e8", "makemove e3"] {
        let _ = handle(&mut s, line);
        let mut g = titanium::ace::replay::start_game();
        let done = titanium::ace::replay::replay_onto(&mut g, &s.applied, 0);
        assert_eq!(done, titanium::ace::replay::Outcome::Done);
        assert_eq!(g.pawn, s.game.pawn);
        assert_eq!((g.hash_lo, g.hash_hi), (s.game.hash_lo, s.game.hash_hi));
    }
}

#[test]
fn lines_for_moves() {
    assert_eq!(bestmove(-1), "bestmove (none)");
    assert_eq!(bestmove(67), "bestmove e2");
    assert_eq!(bestmove(156), "bestmove a1h");
}

const BASE: GoLimits = GoLimits { time_ms: 1000, max_nodes: 77, max_depth: 9 };

#[test]
fn uci_lines() {
    assert_eq!(parse_uci(&words("uci"), BASE), UciCommand::Uci);
    assert_eq!(parse_uci(&words("isready"), BASE), UciCommand::IsReady);
    assert_eq!(parse_uci(&words("ucinewgame"), BASE), UciCommand::NewGame);
    assert_eq!(parse_uci(&words("position startpos moves e2"), BASE), UciCommand::Position(3));
    assert_eq!(parse_uci(&words("position moves e2"), BASE), UciCommand::Position(2));
    assert_eq!(parse_uci(&words("position e2"), BASE), UciCommand::Position(1));
    assert_eq!(parse_uci(&words("position"), BASE), UciCommand::Position(1));
    assert_eq!(parse_uci(&words("stop"), BASE), UciCommand::Stop);
    assert_eq!(parse_uci(&words("quit"), BASE), UciCommand::Quit);
    assert_eq!(parse_uci(&words("xyz"), BASE), UciCommand::Unknown);
    assert_eq!(unknown_reply("xyz"), "info string unknown command xyz");
}

#[test]
fn uci_bounds() {
    let g = parse_go(&words("go movetime 50 nodes 9 depth 4"), BASE);
    assert_eq!(g, GoLimits { time_ms: 50, max_nodes: 9, max_depth: 4 });
    assert_eq!(parse_go(&words("go infinite"), BASE).time_ms, 600_000);
    assert_eq!(parse_go(&words("go movetime 0"), BASE).time_ms, 1);
    assert_eq!(parse_go(&words("go wtime 5 btime 5 depth 2"), BASE).max_depth, 2);
    assert_eq!(parse_go(&words("go movetime x"), BASE).time_ms, 1000);
    assert_eq!(parse_go(&words("go depth"), BASE), BASE);
}

#[test]
fn words_of_the_command_line() {
    let c = parse_cli(&words("perft --threads 3 4 --no-tt e2"));
    assert_eq!(c.positional, words("perft 4 e2"));
    assert_eq!(c.threads, 3);
    assert!(c.no_tt);
    assert_eq!(parse_cli(&words("--threads 0")).threads, 1);
    assert!(looks_like_algebraic_move("e2"));
    assert!(looks_like_algebraic_move("e2h"));
    assert!(!looks_like_algebraic_move("--x"));
    assert!(!looks_like_algebraic_move("e"));
    assert_eq!(ace_engine_flag(&words("x --engine ace-cat")), Some(2));
    assert_eq!(ace_engine_flag(&words("x --engine other")), None);
    assert_eq!(ace_engine_flag(&words("--engine")), None);
    assert_eq!(ace_engine_mode("ace-cat"), EngineMode::Heat);
    assert_eq!(ace_engine_mode("ace-v13"), EngineMode::Board);
    assert_eq!(ace_engine_mode("ace-v8"), EngineMode::Native);
    assert!(is_acev13("ace-v13-ti"));
    assert!(!is_acev13("ace-v1"));
}

#[test]
fn words_of_a_single_search() {
    let args = words("app genmove --engine ace --time 900 e2 e8");
    let r = parse_genmove_ace(&args, &times(&args), "ace-v8-ti-pmc");
    assert!(r.eme);
    assert_eq!(r.moves, words("e2 e8"));
    let none = words("app genmove");
    let d = parse_genmove_ace(&none, &times(&none), "ace");
    assert_eq!((d.time_ms, d.max_depth, d.full, d.log, d.eme), (4000, 30, false, false, false));
}

#[test]
fn words_of_a_match() {
    let none = words("app match");
    let d = parse_match(&none, &times(&none), 6);
    assert_eq!((d.games, d.time_ms, d.seed, d.open_plies, d.max_ply), (100, 2000, 1, 4, 200));
    assert_eq!(d.threads, 6);
    let args = words("app match --games 7 --seed 5 --threads 2");
    let r = parse_match(&args, &times(&args), 6);
    assert_eq!((r.games, r.seed, r.threads), (7, 5, 2));
    assert_eq!(MatchEngine::parse("grafted"), Some(MatchEngine::AceV13Grafted));
    assert_eq!(MatchEngine::parse("none"), None);
    assert_eq!(MatchEngine::TitaniumCert.label(), "Titanium+cert");
}

#[test]
fn pairs_fill_the_threads() {
    assert_eq!(match_pairs(100, 8), 56);
    assert_eq!(match_pairs(1, 1), 1);
    assert_eq!(match_pairs(0, 4), 0);
}

#[test]
fn openings_repeat_with_their_seed() {
    let a = match_random_opening(7, 4);
    assert_eq!(a, match_random_opening(7, 4));
    assert_eq!(a.len(), 4);
    let mut board = Board::new();
    for m in &a {
        board.apply_algebraic(m);
    }
    assert_ne!(match_random_opening(9, 4), a);
}

#[test]
fn a_contest() {
    let mut c = Contest::new(false, 3);
    assert_eq!(c.turn(), Turn::B);
    assert!(c.open_with("e2"));
    assert_eq!((c.turn(), c.left), (Turn::A, 3));
    assert!(!c.play("x"));
    assert!(c.play("e8"));
    assert_eq!((c.turn(), c.left), (Turn::B, 2));
    assert!(c.play("e3"));
    assert!(c.play("a7h"));
    assert_eq!(c.turn(), Turn::Over(Some(Player::One)));
    assert_eq!(adjudicate(&c.board), Some(Player::One));
    let mut t = Tally::new();
    t.record(Some(Player::One), false);
    t.record(None, true);
    t.record(Some(Player::Two), false);
    assert_eq!((t.a_wins, t.b_wins, t.draws), (1, 1, 1));
    assert_eq!(t.double_score(), 3);
}

#[test]
fn a_game_is_played_out() {
    fn even(_: NetInput) -> i32 {
        0
    }
    fn quiet(_: Progress) {}
    let args = DuelArgs {
        a_is_one: true,
        time_ms: 1,
        max_ply: 6,
        engine_a: MatchEngine::AceV13,
        engine_b: MatchEngine::AceV13Cert,
        tt_bits: Some(8),
        tiers: (10, 11, 12),
    };
    let opening = words("e2 e8");
    let end = play_one_game(&opening, args, &even, &quiet).unwrap();
    assert_eq!(end.contest.moves.len() as u32 + end.contest.left, 8);
    assert_eq!(end.contest.moves[..2], opening[..]);
    let mut board = Board::new();
    for m in &end.contest.moves {
        board.apply_algebraic(m);
    }
    assert_eq!(board, end.contest.board);
    assert_eq!(end.contest.turn(), Turn::Over(end.outcome));
    assert!(play_one_game(&words("e2 zz"), args, &even, &quiet).is_none());
    let other = DuelArgs { engine_b: MatchEngine::TitaniumPlain, ..args };
    assert!(play_one_game(&opening, other, &even, &quiet).is_none());
}

#[test]
fn colours_swap() {
    let one = Contest::new(true, 5);
    let two = Contest::new(false, 5);
    assert_eq!((one.turn(), two.turn()), (Turn::A, Turn::B));
}

#[test]
fn texts() {
    let mut s = String::new();
    push_decimal(&mut s, 0);
    push_decimal(&mut s, 907);
    push_integer(&mut s, -15);
    push_integer(&mut s, i32::MIN);
    assert_eq!(s, "0907-15-2147483648");
    assert!(same_text("ab", "ab") && !same_text("ab", "abc"));
    assert!(begins_with("abc", "ab") && !begins_with("a", "ab"));
    assert!(contains_text("xabc", "ab") && !contains_text("xacb", "ab"));
    assert_eq!(parse_number("+17", 20), Some(17));
    assert_eq!(parse_number("21", 20), None);
    assert_eq!(parse_number("-1", 20), None);
    assert_eq!(parse_number("", 20), None);
    assert_eq!(parse_signed("-12"), Some(-12));
    assert_eq!(parse_signed("-2147483648"), Some(i32::MIN));
    assert_eq!(parse_signed("2147483648"), None);
}

#[test]
fn counters() {
    let mut b = BenchInstr::new();
    b.begin_search();
    b.record(Op::Evaluate, 12);
    b.record(Op::Evaluate, 5);
    b.bump(Op::GenMoves);
    assert_eq!(b.ops[Op::Evaluate.index()].calls, 2);
    assert_eq!(b.ops[Op::Evaluate.index()].ns, 17);
    assert_eq!(b.ops[Op::GenMoves.index()].calls, 1);
    assert_eq!(Op::Evaluate.name(), "evaluate");
    b.set_stop_reason("time");
    let t = OpTimer::start(Op::CanStep);
    let early = t.elapsed_ns();
    assert!(t.elapsed_ns() >= early);
    b.end_search(99);
    assert_eq!((b.search_nodes, b.stop_reason), (99, "time"));
    assert!(b.measured_ns > 0);
}

#[test]
fn outcomes_of_floods() {
    let mut board = Board::new();
    let bfs = BfsScratch::new();
    let mut s = FloodStats::new();
    walk(&mut board, 1, &bfs, &mut s);
    assert_eq!(board, Board::new());
    let c = s;
    assert!(c.flood_rejected <= c.flood_needed && c.flood_needed <= c.candidates);
    assert!(c.nodes >= 1);
}

#[test]
fn rankings_agree_with_themselves() {
    let moves: Vec<Move> = (0..4).map(|c| Move::Pawn { row: 3, col: c }).collect();
    let scored: Vec<(Move, i32)> = moves.iter().enumerate().map(|(i, m)| (*m, -(i as i32))).collect();
    let a = compare_rankings(&moves, &scored);
    assert!(a.top1 && a.top3);
    assert_eq!((a.common, a.d2_sum), (4, 0));
    let back: Vec<(Move, i32)> = moves.iter().enumerate().map(|(i, m)| (*m, i as i32)).collect();
    let b = compare_rankings(&moves, &back);
    assert!(!b.top1 && !b.top3);
    assert_eq!((b.common, b.d2_sum), (4, 20));
}

#[test]
fn ranks_keep_ties_in_order() {
    let m = |c: u8| Move::Pawn { row: 0, col: c };
    let r = rank(&vec![(m(0), 5), (m(1), 9), (m(2), 5), (m(3), 9)]);
    assert_eq!(r, vec![(m(1), 9), (m(3), 9), (m(0), 5), (m(2), 5)]);
}

#[test]
fn mirrors_undo_themselves() {
    let w = Move::Wall { row: 2, col: 1, orientation: WallOrientation::Vertical };
    let p = Move::Pawn { row: 2, col: 1 };
    assert_eq!(mirror_move(mirror_move(w)), w);
    assert_eq!(mirror_move(mirror_move(p)), p);
    assert_eq!(mirror_move(p), Move::Pawn { row: 2, col: 7 });
    assert_eq!(
        mirror_move(w),
        Move::Wall { row: 2, col: 7, orientation: WallOrientation::Vertical }
    );
}
