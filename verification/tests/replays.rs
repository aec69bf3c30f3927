//! Legality in games that were played.

use titanium::movegen::legal::{generate_legal_moves_slice, MAX_LEGAL_MOVES};
use titanium::path::bfs::{both_players_reach_goals, BfsScratch};
use titanium::position::board::{Board, Move, WallOrientation};

fn parse_algebraic(move_str: &str) -> Option<Move> {
    let chars: Vec<char> = move_str.chars().collect();
    if chars.len() < 2 {
        return None;
    }

    let col = (chars[0] as u8).saturating_sub(b'a') as u8;
    if col > 8 {
        return None;
    }

    let row = (chars[1] as u8).saturating_sub(b'1') as u8;
    if row > 8 {
        return None;
    }

    if chars.len() >= 3 {
        let orientation = match chars.get(2) {
            Some(&'h') => WallOrientation::Horizontal,
            Some(&'v') => WallOrientation::Vertical,
            _ => return None,
        };
        Some(Move::Wall {
            row,
            col,
            orientation,
        })
    } else {
        Some(Move::Pawn { row, col })
    }
}

#[test]
fn d3h_legal_off_topology_matches_js() {
    // A wall held at fewer than two points cannot cut a path.
    let prefix = ["e2", "e8", "e3", "e7", "e4", "e6", "e5", "e4"];
    let mut board = Board::new();
    let bfs = BfsScratch::new();
    let mut buf = [Move::Pawn { row: 0, col: 0 }; MAX_LEGAL_MOVES];

    for move_str in prefix {
        let mv = parse_algebraic(move_str).unwrap();
        let _ = board.make_move(mv);
    }

    let d3h = parse_algebraic("d3h").unwrap();
    let n = generate_legal_moves_slice(&board, &mut buf, &bfs);
    assert!(
        buf[..n].contains(&d3h),
        "d3h must be legal when off topology"
    );
}

#[test]
fn a5h_correctly_rejected_after_tq1_ply19() {
    let prefix = [
        "e2", "e8", "e3", "e7", "e4", "e6", "c3h", "e7h", "e3h", "c7h", "f4", "g7h", "f5", "h8h",
        "f6", "b6v", "g3h", "h7v", "a3h",
    ];
    let mut board = Board::new();
    let bfs = BfsScratch::new();
    let mut buf = [Move::Pawn { row: 0, col: 0 }; MAX_LEGAL_MOVES];

    for move_str in prefix {
        let mv = parse_algebraic(move_str).unwrap();
        let n = generate_legal_moves_slice(&board, &mut buf, &bfs);
        assert!(buf[..n].contains(&mv), "{move_str} must be legal in prefix");
        let _ = board.make_move(mv);
    }

    let a5h = parse_algebraic("a5h").unwrap();
    let n = generate_legal_moves_slice(&board, &mut buf, &bfs);
    assert!(
        !buf[..n].contains(&a5h),
        "a5h must be rejected — it blocks White's goal path"
    );
}

#[test]
fn a1h_correctly_rejected_ply22_wall_maze() {
    let prefix = [
        "e2", "e8", "e3", "e7", "e4", "e6", "e3h", "e4h", "d4", "c4h", "e5v", "a5h", "h8h", "d6",
        "b5v", "f3v", "e7v", "c3h", "d7h", "b2v", "h6h",
    ];
    let mut board = Board::new();
    let bfs = BfsScratch::new();
    let mut buf = [Move::Pawn { row: 0, col: 0 }; MAX_LEGAL_MOVES];

    for move_str in prefix {
        let mv = parse_algebraic(move_str).unwrap();
        let n = generate_legal_moves_slice(&board, &mut buf, &bfs);
        assert!(buf[..n].contains(&mv), "{move_str} must be legal in prefix");
        let _ = board.make_move(mv);
    }

    let a1h = parse_algebraic("a1h").unwrap();
    let n = generate_legal_moves_slice(&board, &mut buf, &bfs);
    assert!(
        !buf[..n].contains(&a1h),
        "a1h cages White — must be illegal"
    );
}

fn after(prefix: &[&str]) -> Board {
    let mut board = Board::new();
    let bfs = BfsScratch::new();
    let mut buf = [Move::Pawn { row: 0, col: 0 }; MAX_LEGAL_MOVES];
    for move_str in prefix {
        let mv = parse_algebraic(move_str).unwrap();
        let n = generate_legal_moves_slice(&board, &mut buf, &bfs);
        assert!(buf[..n].contains(&mv), "{move_str} must be legal in prefix");
        let _ = board.make_move(mv);
    }
    board
}

#[test]
fn a_wall_that_leaves_columns_open_is_legal() {
    // The line from a5 to f5 leaves g, h and i open, the line from c3 to h3
    // leaves a, b and i.
    let mut board = after(&[
        "e2", "e8", "e3", "e7", "e4", "e6", "e5", "e4", "e3h", "e5h", "c3h", "c5h", "g3h",
    ]);
    let bfs = BfsScratch::new();
    let mut buf = [Move::Pawn { row: 0, col: 0 }; MAX_LEGAL_MOVES];
    let a5h = parse_algebraic("a5h").unwrap();
    let n = generate_legal_moves_slice(&board, &mut buf, &bfs);
    assert!(buf[..n].contains(&a5h));
    let _ = board.make_move(a5h);
    assert!(both_players_reach_goals(&board));
}

#[test]
fn a_wall_with_a_way_round_is_legal() {
    // The pawn on f4 leaves by g5, h5, h7 and c7, and walks down the c file.
    let mut board = after(&[
        "e2", "e8", "e3", "e7", "e4", "e6", "d1h", "d6h", "f4", "f6h", "f5", "e5", "d5", "c5v",
        "d4", "c3v", "d3", "e4", "c1v", "f4", "f1h", "h1v", "h2h", "g3v",
    ]);
    let bfs = BfsScratch::new();
    let mut buf = [Move::Pawn { row: 0, col: 0 }; MAX_LEGAL_MOVES];
    let g1v = parse_algebraic("g1v").unwrap();
    let n = generate_legal_moves_slice(&board, &mut buf, &bfs);
    assert!(buf[..n].contains(&g1v));
    let _ = board.make_move(g1v);
    assert!(both_players_reach_goals(&board));
}
