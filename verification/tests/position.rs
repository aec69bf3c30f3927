//! Board, notation and keys.

use titanium::position::board::{Board, Move, Player, WallOrientation};
use titanium::position::zobrist::hash_board;
use titanium::util::notation::{ace_to_algebraic, algebraic_to_ace, format_move, parse_algebraic};

#[test]
fn starting_position_matches_scraped_ui() {
    let board = Board::new();
    assert_eq!(board.pawns[0], (0, 4));
    assert_eq!(board.pawns[1], (8, 4));
    assert_eq!(board.walls_remaining, [10, 10]);
    assert_eq!(board.side_to_move, Player::One);
    assert_eq!(Board::format_square(0, 4), "e1");
    assert_eq!(Board::format_square(8, 4), "e9");
}

#[test]
fn make_unmake_restores_board_and_hash() {
    let mut board = Board::new();
    let before = board.clone();
    let mv = Move::Pawn { row: 1, col: 4 };
    let undo = board.make_move(mv);
    board.unmake_move(undo);
    assert_eq!(board, before);
    assert_eq!(board.hash, before.hash);
}

#[test]
fn wall_make_unmake_restores_board_and_hash() {
    let mut board = Board::new();
    board.apply_algebraic("e2");
    let before = board.clone();
    let mv = Move::Wall { row: 3, col: 4, orientation: WallOrientation::Vertical };
    let undo = board.make_move(mv);
    assert_eq!(board.walls_remaining, [10, 9]);
    assert_eq!(board.vertical_walls, 1 << 28);
    assert_eq!(board.move_number, 2);
    assert_ne!(board.hash, before.hash);
    board.unmake_move(undo);
    assert_eq!(board, before);
}

#[test]
fn incremental_key_is_the_key_from_scratch() {
    let mut board = Board::new();
    for m in ["e2", "e8", "d3h", "c6v", "e3", "e7"] {
        board.apply_algebraic(m);
        assert_eq!(board.hash, hash_board(&board));
    }
    assert_eq!(board.move_number, 4);
}

#[test]
fn signature_changes_with_the_side_to_move() {
    let mut a = Board::new();
    let b = Board::new();
    assert_eq!(a.tt_verify(), b.tt_verify());
    a.apply_algebraic("e2");
    assert_ne!(a.tt_verify(), b.tt_verify());
}

#[test]
fn names_of_moves_read_back() {
    let moves = [
        Move::Pawn { row: 8, col: 0 },
        Move::Pawn { row: 0, col: 8 },
        Move::Wall { row: 7, col: 7, orientation: WallOrientation::Horizontal },
        Move::Wall { row: 0, col: 3, orientation: WallOrientation::Vertical },
    ];
    for mv in moves {
        assert_eq!(parse_algebraic(&format_move(mv)), Some(mv));
        assert_eq!(ace_to_algebraic(algebraic_to_ace(&format_move(mv))), format_move(mv));
    }
    assert_eq!(format_move(moves[2]), "h8h");
    assert_eq!(format_move(moves[3]), "d1v");
    assert_eq!(parse_algebraic("e"), None);
    assert_eq!(parse_algebraic("e2x"), None);
    assert_eq!(parse_algebraic("j1"), None);
    assert_eq!(parse_algebraic("i1h"), None);
    assert_eq!(algebraic_to_ace("e2"), 67);
    assert_eq!(algebraic_to_ace("a8h"), 100);
    assert_eq!(algebraic_to_ace("h1v"), 263);
}

#[test]
fn terminal_positions() {
    let mut board = Board::default();
    assert_eq!(board.is_terminal(), None);
    board.pawns[1] = (0, 2);
    assert_eq!(board.is_terminal(), Some(Player::Two));
    board.pawns[0] = (8, 2);
    assert_eq!(board.is_terminal(), Some(Player::One));
    assert_eq!(Player::One.opposite(), Player::Two);
    assert_eq!(Board::column_char(8), 'i');
}
