//! Heats, gains and masks on small positions.

use titanium::ace::eval::NetInput;
use titanium::ace::replay::{replay_onto, start_game, Outcome};
use titanium::ace::search::{AceSearch, Progress};
use titanium::cat::collect::best_pawn_cat_heats;
use titanium::cat::heat::{
    build_corridor_attention, build_corridor_display_squares, corridor_bottleneck_count,
};
use titanium::cat::moves::{
    cat_heat_refs_from_scores, move_corridor_attention, move_corridor_attention_with_denial,
    move_corridor_attention_with_path,
};
use titanium::cat::prune::{move_immediate_gain, wall_completely_skipped, wall_net_race};
use titanium::path::bfs::BfsScratch;
use titanium::path::masks::DirMasks;
use titanium::position::board::{Board, Move, Player, WallOrientation};
use titanium::util::grid::wall_touch_squares;

fn words(s: &str) -> Vec<String> {
    s.split_whitespace().map(String::from).collect()
}

fn net(x: NetInput) -> i32 {
    let one = x.goal0[x.pawn[0]] as i32;
    let two = x.goal1[x.pawn[1]] as i32;
    if x.turn == 0 {
        two - one
    } else {
        one - two
    }
}

fn quiet(_: Progress) {}

fn halves(h: i32, surprise: u32) -> i32 {
    if surprise > 0 {
        h / 2
    } else {
        h
    }
}

fn wall(row: u8, col: u8, orientation: WallOrientation) -> Move {
    Move::Wall { row, col, orientation }
}

const H: WallOrientation = WallOrientation::Horizontal;
const V: WallOrientation = WallOrientation::Vertical;

#[test]
fn squares_around_a_slot() {
    assert_eq!(wall_touch_squares(2, 5), [(2, 5), (2, 6), (3, 5), (3, 6)]);
}

#[test]
fn a_wall_in_the_way_gains_a_step() {
    let board = Board::new();
    let bfs = BfsScratch::new();
    // Before player two's pawn, who is to walk down the e file.
    let before_two = wall(7, 4, H);
    assert_eq!(wall_net_race(&board, before_two, 8, 8, &bfs), 0);
    assert_eq!(wall_net_race(&board, Move::Pawn { row: 1, col: 4 }, 8, 8, &bfs), 0);
    assert_eq!(move_immediate_gain(&board, Move::Pawn { row: 1, col: 4 }, 8, 8, &bfs), 1);
    assert!(move_immediate_gain(&board, Move::Pawn { row: 0, col: 3 }, 8, 8, &bfs) < 0);
    assert_eq!(move_immediate_gain(&board, before_two, 8, 8, &bfs), 1);
    // Behind both pawns nothing is gained.
    assert!(move_immediate_gain(&board, wall(3, 0, V), 8, 8, &bfs) < 0);
}

#[test]
fn open_boards_skip_no_wall() {
    let board = Board::new();
    let all = (1u128 << 81) - 1;
    assert!(!wall_completely_skipped(wall(3, 3, H), &board, all, 0));
    assert!(!wall_completely_skipped(Move::Pawn { row: 1, col: 4 }, &board, all, 0));
    assert!(wall_completely_skipped(wall(3, 3, H), &board, 0, 0));
}

#[test]
fn heats_of_the_start() {
    let board = Board::new();
    let bfs = BfsScratch::new();
    let cat = build_corridor_attention(&board);
    let (one, two) = best_pawn_cat_heats(&board, &cat, &bfs);
    assert_eq!(one, two);
    assert!(one > 0);
    assert!(corridor_bottleneck_count(&board, Player::One) <= 8);
    let squares = build_corridor_display_squares(&board);
    assert!(squares[4] > squares[0]);
    let step = Move::Pawn { row: 1, col: 4 };
    let plain = move_corridor_attention(&board, step, &cat);
    assert_eq!(move_corridor_attention_with_path(&board, step, &cat, 8, 8, &bfs), plain);
    assert_eq!(move_corridor_attention_with_denial(&board, step, &cat, &[], &[], 0), plain);
    let w = wall(7, 4, H);
    let direct = move_corridor_attention(&board, w, &cat);
    assert!(move_corridor_attention_with_path(&board, w, &cat, 8, 8, &bfs) >= direct);
    let denied = [wall(7, 3, H)];
    assert!(move_corridor_attention_with_denial(&board, w, &cat, &denied, &[900], 1) >= direct);
}

#[test]
fn hottest_by_kind() {
    let list = [Move::Pawn { row: 1, col: 4 }, wall(3, 3, H), wall(3, 5, V)];
    let r = cat_heat_refs_from_scores(&list, 3, &[7, 30, 20]);
    assert_eq!((r.all, r.walls, r.pawns), (30, 30, 7));
    let r = cat_heat_refs_from_scores(&list, 3, &[7]);
    assert_eq!((r.all, r.walls, r.pawns), (7, 0, 7));
}

#[test]
fn masks_of_a_game() {
    let mut g = start_game();
    let open = DirMasks::from_ace_game(&g);
    assert_eq!(replay_onto(&mut g, &words("d3h e5v"), 0), Outcome::Done);
    let built = DirMasks::from_ace_game(&g);
    let (mut h, mut v) = (0u64, 0u64);
    for slot in 0..64 {
        h |= u64::from(g.hw[slot]) << slot;
        v |= u64::from(g.vw[slot]) << slot;
    }
    let first = h.trailing_zeros() as usize;
    let second = v.trailing_zeros() as usize;
    let both = open.with_ace_wall(0, 0, 0, first).with_ace_wall(h, 0, 1, second);
    assert_eq!(both.north, built.north);
    assert_eq!(both.south, built.south);
    assert_eq!(both.east, built.east);
    assert_eq!(both.west, built.west);
    assert!(built.north != open.north && built.east != open.east);
    assert!(!start_game().wall_needs_path_check(0, 27));
    assert!(g.wall_needs_path_check(0, 0) == g.wall_needs_path_check(0, 7));
}

#[test]
fn variants_of_the_search() {
    let tiers = (12, 13, 14);
    let s = AceSearch::with_ti_movegen_and_cat(start_game());
    assert!(s.config.gen.ti_movegen && s.config.gen.cat_walls);
    let s = AceSearch::with_ti_movegen_deadzone(start_game());
    assert!(s.config.gen.dead_zone_prune);
    let mut s = AceSearch::grafted_no_raceproof(start_game(), None, tiers);
    assert!(!s.config.eval.race_proof && s.config.eval.cheap_cert);
    assert!(!s.config.use_partial_iter && !s.config.is_pondering);
    assert!(!AceSearch::new(start_game()).config.use_partial_iter);
    s.set_partial_iter(true);
    s.set_pondering(true);
    assert!(s.config.use_partial_iter && s.config.is_pondering);
    s.set_partial_iter(false);
    s.set_pondering(false);
    let r = s.think(5_000, 3, false, false, "ace", &net, &quiet);
    let learnt = s.memory.history[r.mv as usize];
    let generation = s.tt.generation;
    s.migrate_root(r.mv, r.score + 50, &halves);
    assert_eq!(s.g.turn, 1);
    assert_eq!(s.tt.generation, generation.wrapping_add(1));
    assert_eq!(s.memory.history[r.mv as usize], learnt / 2);
    let mut d = AceSearch::with_ti_movegen_deadzone(start_game());
    let r = d.think(5_000, 2, false, false, "ace", &net, &quiet);
    assert_eq!(r.depth, 2);
}
