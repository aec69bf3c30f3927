//! Algebraic names of moves.

use vstd::prelude::*;
use vstd::string::StringSliceAdditionalSpecFns;

use crate::ace::convert::{
    ace_move_to_board, board_move_to_ace, is_ace_move, on_grid, to_ace, to_board,
};
use crate::position::board::{Board, Move, WallOrientation};
use crate::util::text::{decimal, digit_char};

verus! {

/// The name of a move: the square or slot, and `h` or `v` for a wall.
pub open spec fn move_chars(mv: Move) -> Seq<char> {
    match mv {
        Move::Pawn { row, col } => seq![(97 + col) as char] + decimal((row + 1) as nat),
        Move::Wall { row, col, orientation } => (seq![(97 + col) as char] + decimal(
            (row + 1) as nat,
        )).push(
            match orientation {
                WallOrientation::Horizontal => 'h',
                WallOrientation::Vertical => 'v',
            },
        ),
    }
}

/// The name of a move.
pub fn format_move(mv: Move) -> (r: String)
    requires
        on_grid(mv),
    ensures
        r@ == move_chars(mv),
{
    match mv {
        Move::Pawn { row, col } => Board::format_square(row, col),
        Move::Wall { row, col, orientation } => {
            let mut s: String = Board::format_square(row, col);
            match orientation {
                WallOrientation::Horizontal => s.push('h'),
                WallOrientation::Vertical => s.push('v'),
            }
            s
        },
    }
}

/// The bytes of a name mean the move.
pub proof fn lemma_name_means(mv: Move)
    requires
        on_grid(mv),
    ensures
        Board::algebraic_move(vstd::utf8::encode_utf8(move_chars(mv))) == Some(mv),
{
    let (row, col) = match mv {
        Move::Pawn { row, col } => (row, col),
        Move::Wall { row, col, .. } => (row, col),
    };
    assert(decimal((row + 1) as nat) =~= seq![digit_char((row + 1) as nat)]);
    let c = move_chars(mv);
    assert(c[0] == (97 + col) as char);
    assert(c[1] == digit_char((row + 1) as nat));
    assert(vstd::utf8::is_ascii_chars(c));
    vstd::utf8::is_ascii_chars_encode_utf8(c);
    let b = vstd::utf8::encode_utf8(c);
    assert(b =~= Seq::new(c.len(), |i: int| c[i] as u8));
    assert(b[0] == 97 + col);
    assert(b[1] == 49 + row);
}

/// Reading the name of a move gives the move back.
pub proof fn lemma_name_round_trip(mv: Move, s: &str)
    requires
        on_grid(mv),
        s@ == move_chars(mv),
    ensures
        Board::algebraic_move(s.spec_bytes()) == Some(mv),
{
    lemma_name_means(mv);
}

/// The move number of a name.
pub fn algebraic_to_ace(text: &str) -> (m: i16)
    requires
        Board::algebraic_move(text.spec_bytes()) matches Some(mv) && on_grid(mv),
    ensures
        m == to_ace(Board::algebraic_move(text.spec_bytes())->0),
        is_ace_move(m),
{
    let bytes: &[u8] = text.as_bytes();
    let col: u8 = bytes[0] - 97;
    let row: u8 = bytes[1] - 49;
    if bytes.len() > 2 {
        let orientation: WallOrientation = if bytes[2] == 104 {
            WallOrientation::Horizontal
        } else {
            WallOrientation::Vertical
        };
        board_move_to_ace(Move::Wall { row, col, orientation })
    } else {
        board_move_to_ace(Move::Pawn { row, col })
    }
}

/// The move that a name means, if it means one on the grid.
pub fn parse_algebraic(text: &str) -> (r: Option<Move>)
    ensures
        r == (match Board::algebraic_move(text.spec_bytes()) {
            Some(mv) => if on_grid(mv) {
                Some(mv)
            } else {
                None
            },
            None => None,
        }),
{
    let bytes: &[u8] = text.as_bytes();
    if bytes.len() < 2 || bytes[0] < 97 || bytes[1] < 49 {
        return None;
    }
    let col: u8 = bytes[0] - 97;
    let row: u8 = bytes[1] - 49;
    if bytes.len() == 2 {
        if row < 9 && col < 9 {
            return Some(Move::Pawn { row, col });
        }
        return None;
    }
    if row >= 8 || col >= 8 {
        return None;
    }
    if bytes[2] == 104 {
        Some(Move::Wall { row, col, orientation: WallOrientation::Horizontal })
    } else if bytes[2] == 118 {
        Some(Move::Wall { row, col, orientation: WallOrientation::Vertical })
    } else {
        None
    }
}

/// The name of a move number.
pub fn ace_to_algebraic(m: i16) -> (r: String)
    requires
        is_ace_move(m),
    ensures
        r@ == move_chars(to_board(m)),
{
    format_move(ace_move_to_board(m))
}

} // verus!
