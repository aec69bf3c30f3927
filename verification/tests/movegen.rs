//! Pawn moves, wall moves and whole move lists.

use titanium::movegen::legal::{
    generate_legal_moves, generate_legal_moves_slice, generate_legal_moves_slice_mode,
    generate_pawn_moves, generate_pawn_moves_for, generate_pawn_moves_scalar_for,
    generate_pawn_moves_slice_mode, generate_wall_moves, generate_wall_moves_into, is_legal_wall,
    wall_path_ok_after_place, PawnGenMode, MAX_LEGAL_MOVES,
};
use titanium::movegen::pawn_bits::{
    generate_pawn_moves_bitboard_slice, generate_pawn_moves_shift_slice,
};
use titanium::path::bfs::{both_players_reach_goals, can_reach_goal, shortest_distance, BfsScratch};
use titanium::position::board::{Board, Move, Player, WallOrientation};
use titanium::util::grid::set_wall;
use titanium::util::perft::{perft, PERFT3_STARTPOS};

fn same_pawn_multiset(a: &[Move], b: &[Move]) -> bool {
    if a.len() != b.len() {
        return false;
    }
    a.iter().all(|mv| b.contains(mv))
}

fn assert_pawn_moves_match(board: &Board) {
    let mut scalar = [Move::Pawn { row: 0, col: 0 }; 8];
    let mut bitboard = [Move::Pawn { row: 0, col: 0 }; 8];
    let mut shift = [Move::Pawn { row: 0, col: 0 }; 8];
    let ns = generate_pawn_moves_scalar_for(board, board.side_to_move, &mut scalar);
    let nb = generate_pawn_moves_bitboard_slice(board, &mut bitboard);
    let nsh = generate_pawn_moves_shift_slice(board, &mut shift);
    assert!(
        same_pawn_multiset(&scalar[..ns], &bitboard[..nb]),
        "bitboard mismatch stm={:?} pawns={:?}",
        board.side_to_move,
        board.pawns
    );
    assert!(
        same_pawn_multiset(&scalar[..ns], &shift[..nsh]),
        "shift mismatch stm={:?} pawns={:?}",
        board.side_to_move,
        board.pawns
    );
}

fn walk_compare(board: &mut Board, depth: u32, scratch: &mut BfsScratch) {
    if board.is_terminal().is_some() {
        return;
    }
    assert_pawn_moves_match(board);

    if depth == 0 {
        return;
    }

    let mut legal = [Move::Pawn { row: 0, col: 0 }; MAX_LEGAL_MOVES];
    let n = generate_legal_moves_slice(board, &mut legal, scratch);
    for &mv in &legal[..n] {
        let undo = board.make_move(mv);
        walk_compare(board, depth - 1, scratch);
        board.unmake_move(undo);
    }
}

#[test]
fn bitboard_matches_scalar_startpos() {
    assert_pawn_moves_match(&Board::new());
}

#[test]
fn bitboard_matches_scalar_perft_depth3() {
    let mut board = Board::new();
    let mut scratch = BfsScratch::new();
    walk_compare(&mut board, 3, &mut scratch);
}

#[test]
fn bitboard_jump_lateral_when_forward_blocked() {
    let mut board = Board::new();
    // Face-to-face (adjacent!) with a wall directly behind black so the
    // straight jump is blocked — lateral jumps beside the opponent only.
    board.pawns = [(4, 4), (5, 4)];
    board.side_to_move = Player::One;
    set_wall(
        &mut board,
        5,
        4,
        WallOrientation::Horizontal,
        true,
    );
    assert_pawn_moves_match(&board);
    let mut out = [Move::Pawn { row: 0, col: 0 }; 8];
    let n = generate_pawn_moves_bitboard_slice(&board, &mut out);
    let targets: Vec<_> = out[..n]
        .iter()
        .map(|mv| match mv {
            Move::Pawn { row, col } => (*row, *col),
            _ => panic!("pawn only"),
        })
        .collect();
    // Straight jump (6,4) must be blocked; laterals land beside black.
    assert!(!targets.contains(&(6, 4)), "straight jump must be blocked");
    assert!(targets.contains(&(5, 3)), "west lateral jump");
    assert!(targets.contains(&(5, 5)), "east lateral jump");
}

#[test]
fn start_has_three_pawn_moves_for_white() {
    let board = Board::new();
    let pawns = generate_pawn_moves(&board);
    assert_eq!(pawns.len(), 3);
}

#[test]
fn start_has_many_wall_moves() {
    let board = Board::new();
    let walls = generate_wall_moves(&board);
    assert!(walls.len() > 100);
}
#[test]
fn slice_matches_vec_at_startpos() {
    let mut board = Board::new();
    let mut scratch = BfsScratch::new();
    let mut slice_buf = [Move::Pawn { row: 0, col: 0 }; MAX_LEGAL_MOVES];
    let n = generate_legal_moves_slice(&mut board, &mut slice_buf, &mut scratch);
    let vec_moves = generate_legal_moves(&board);
    assert_eq!(n, vec_moves.len());
    assert_eq!(&slice_buf[..n], vec_moves.as_slice());
    assert!(n <= MAX_LEGAL_MOVES);
}

#[test]
fn wall_trial_leaves_board_unchanged() {
    let mut board = Board::new();
    let before = board.clone();
    let mut scratch = BfsScratch::new();
    let mut moves = Vec::new();
    generate_wall_moves_into(&mut board, &mut moves, &mut scratch);
    assert_eq!(board, before);
}

#[test]
fn perft_from_the_start() {
    let mut board = Board::new();
    let scratch = BfsScratch::new();
    assert_eq!(perft(&mut board, 0, &scratch), 1);
    assert_eq!(perft(&mut board, 1, &scratch), 131);
    assert_eq!(perft(&mut board, 2, &scratch), 16677);
    assert_eq!(board, Board::new());
}

#[test]
fn perft_depth_three_matches_published_count() {
    let mut board = Board::new();
    let scratch = BfsScratch::new();
    assert_eq!(perft(&mut board, 3, &scratch), PERFT3_STARTPOS);
}

#[test]
fn all_modes_list_the_same_moves() {
    let scratch = BfsScratch::new();
    let mut board = Board::new();
    board.pawns = [(4, 4), (5, 4)];
    set_wall(&mut board, 5, 4, WallOrientation::Horizontal, true);
    let modes = [
        PawnGenMode::Scalar,
        PawnGenMode::BitboardFreshDirMasks,
        PawnGenMode::BitboardCachedDirMasks,
        PawnGenMode::ShiftCanStep,
        PawnGenMode::O1Lookup,
        PawnGenMode::O1LeanLut,
    ];
    let mut reference = [Move::Pawn { row: 0, col: 0 }; 140];
    let n0 = generate_legal_moves_slice_mode(&board, &mut reference, &scratch, modes[0]);
    for mode in modes {
        let mut out = [Move::Pawn { row: 0, col: 0 }; 140];
        let n = generate_legal_moves_slice_mode(&board, &mut out, &scratch, mode);
        assert_eq!(n, n0);
        assert!(out[..n].iter().all(|m| reference[..n0].contains(m)));
        let mut pawns = [Move::Pawn { row: 0, col: 0 }; 8];
        assert_eq!(generate_pawn_moves_slice_mode(&board, &mut pawns, &scratch, mode), 5);
    }
    board.pawns[0] = (8, 4);
    assert_eq!(generate_legal_moves(&board).len(), 0);
}

#[test]
fn sealing_walls_are_refused() {
    // A horizontal chain across row 3 leaves one gap at columns 8; closing it
    // would cut both players off.
    let mut board = Board::new();
    for c in [0u8, 2, 4, 6] {
        set_wall(&mut board, 3, c, WallOrientation::Horizontal, true);
    }
    assert!(both_players_reach_goals(&board));
    assert_eq!(shortest_distance(&board, Player::One), Some(12));
    let closing = Move::Wall { row: 3, col: 7, orientation: WallOrientation::Vertical };
    assert!(!generate_wall_moves(&board).contains(&Move::Wall {
        row: 2,
        col: 7,
        orientation: WallOrientation::Vertical
    }) || wall_path_ok_after_place(&board, 2, 7, WallOrientation::Vertical));
    assert!(is_legal_wall(&board, 3, 7, WallOrientation::Vertical));
    assert!(generate_wall_moves(&board).contains(&closing));
    set_wall(&mut board, 4, 7, WallOrientation::Horizontal, true);
    set_wall(&mut board, 3, 7, WallOrientation::Vertical, true);
    assert!(!can_reach_goal(&board, Player::One));
    assert_eq!(shortest_distance(&board, Player::Two), None);
}

#[test]
fn last_wall_gone_leaves_pawn_moves_only() {
    let mut board = Board::new();
    board.walls_remaining = [0, 10];
    assert_eq!(generate_legal_moves(&board).len(), 3);
    let mut out = [Move::Pawn { row: 0, col: 0 }; 8];
    assert_eq!(generate_pawn_moves_for(&board, Player::Two, &mut out), 3);
    assert_eq!(out[0], Move::Pawn { row: 8, col: 5 });
}
