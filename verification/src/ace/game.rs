//! The game in cells and slots, with a move history.
//!
//! Rows run the other way round than on a [`Board`]: cell `r * 9 + c` is row
//! `8 - r`, and slot `r * 8 + c` is wall row `7 - r`. Player 0 runs to row 0,
//! player 1 to row 8. A move is a cell (0 to 80), a horizontal wall
//! (100 + slot) or a vertical wall (200 + slot).

use vstd::prelude::*;

use crate::movegen::legal::{
    can_wall_block_topology, generate_pawn_moves_scalar_for, is_legal_wall, wall_collides,
};
use crate::movegen::pawn_bits::written;
use crate::movegen::rules::{
    anchored, at, lands_on_board, lemma_pawn_moves_land, lemma_pawn_moves_len, loose, pawn_moves,
    player_pawn_moves, tested,
};
use crate::path::bfs::can_reach_goal;
use crate::path::distance::{fill_dist_from_sq, fill_dist_to_goal_row, is_field, lemma_field_steps};
use crate::path::graph::{board_steps, goal_squares, has_path, only, wall_steps};
use crate::path::masks::DirMasks;
use crate::position::board::{Board, Move, Player, WallOrientation};
use crate::position::zobrist::{mix, mix_spec};
use crate::util::bits::{bit64, lemma_bits64, lemma_ext64};
use crate::util::grid::{lemma_with_slot, slot, with_slot};

verus! {

/// No move.
pub const ACE_NO_MOVE: i16 = -1;

/// Bits of blocked directions: cell - 9, cell + 9, cell - 1, cell + 1.
pub const DIRBIT: [u8; 4] = [1, 2, 4, 8];

pub const DELTA: [i16; 4] = [-9, 9, -1, 1];

// --- keys ---

pub open spec fn key_word(kind: int, i: int) -> u64 {
    mix_spec((0x10_0000 + kind * 0x100 + i) as u64)
}

pub open spec fn low_half(x: u64) -> u32 {
    (x & 0xFFFF_FFFF) as u32
}

pub open spec fn high_half(x: u64) -> u32 {
    (x >> 32) as u32
}

/// Key halves: kinds 0 and 1 are the pawns, 2 and 3 the walls, 4 the turn.
pub fn zobrist_key(kind: u64, i: u64) -> (r: (u32, u32))
    requires
        kind <= 4,
        i < 81,
    ensures
        r.0 == low_half(key_word(kind as int, i as int)),
        r.1 == high_half(key_word(kind as int, i as int)),
{
    let x: u64 = mix(0x10_0000 + kind * 0x100 + i);
    proof {
        bv_halves(x);
    }
    ((x & 0xFFFF_FFFF) as u32, (x >> 32) as u32)
}

proof fn bv_halves(x: u64)
    by (bit_vector)
    ensures
        x & 0xFFFF_FFFF <= 0xFFFF_FFFF,
        x >> 32 <= 0xFFFF_FFFF,
{
}

// --- state ---

/// What undoing a move needs.
#[derive(Clone, Copy, Debug)]
pub struct HistItem {
    pub m: i16,
    /// The mover's cell before the move.
    pub from: usize,
    /// The last-wall ply before the move.
    pub last_wall_ply: usize,
    /// The keys before the move.
    pub lo: u32,
    pub hi: u32,
}

/// A game as mathematics.
#[verifier::ext_equal]
pub struct AceState {
    /// Wall words: bit `slot`.
    pub h: u64,
    pub v: u64,
    pub p0: int,
    pub p1: int,
    pub wl0: int,
    pub wl1: int,
    pub turn: int,
    pub lo: u32,
    pub hi: u32,
    pub hist: Seq<HistItem>,
    /// Number of plies up to and including the last wall.
    pub last_wall_ply: int,
    /// Number of walls placed in this history.
    pub stamp: int,
}

/// Kind of a move: 0 pawn, 1 horizontal wall, 2 vertical wall.
pub open spec fn is_pawn_move(m: i16) -> bool {
    0 <= m < 81
}

pub open spec fn is_h_wall(m: i16) -> bool {
    100 <= m < 164
}

pub open spec fn is_v_wall(m: i16) -> bool {
    200 <= m < 264
}

pub open spec fn wall_slot(m: i16) -> int {
    m as int % 100
}

pub open spec fn move_orientation(m: i16) -> WallOrientation {
    if m < 200 {
        WallOrientation::Horizontal
    } else {
        WallOrientation::Vertical
    }
}

impl AceState {
    pub open spec fn pawn(self, p: int) -> int {
        if p == 0 {
            self.p0
        } else {
            self.p1
        }
    }

    pub open spec fn wl(self, p: int) -> int {
        if p == 0 {
            self.wl0
        } else {
            self.wl1
        }
    }

    /// The position as a board of its own row order: the player who runs to
    /// row 8 comes first.
    pub open spec fn grid_is(self, b: Board) -> bool {
        &&& b.pawns@ == seq![
            ((self.p1 / 9) as u8, (self.p1 % 9) as u8),
            ((self.p0 / 9) as u8, (self.p0 % 9) as u8),
        ]
        &&& b.horizontal_walls == self.h
        &&& b.vertical_walls == self.v
        &&& b.side_to_move == grid_player(self.turn)
    }

    /// Pawns on the board, a turn, and as many walls as were placed.
    pub open spec fn wf(self) -> bool {
        &&& 0 <= self.p0 < 81
        &&& 0 <= self.p1 < 81
        &&& 0 <= self.turn < 2
        &&& 0 <= self.last_wall_ply <= self.hist.len()
        &&& 0 <= self.stamp <= self.hist.len()
    }

    /// `m` can be carried out: a cell, or a wall in a slot where it collides
    /// with nothing, and the mover has it.
    pub open spec fn playable(self, m: i16) -> bool {
        ||| is_pawn_move(m)
        ||| {
            &&& is_h_wall(m) || is_v_wall(m)
            &&& self.wl(self.turn) > 0
            &&& !self.wall_collides(wall_slot(m), move_orientation(m))
        }
    }

    /// A wall in the slot would overlap, cross or run into another.
    pub open spec fn wall_collides(self, s: int, o: WallOrientation) -> bool {
        let r = s / 8;
        let c = s % 8;
        ||| slot(self.h, r, c)
        ||| slot(self.v, r, c)
        ||| match o {
            WallOrientation::Horizontal => slot(self.h, r, c - 1) || slot(self.h, r, c + 1),
            WallOrientation::Vertical => slot(self.v, r - 1, c) || slot(self.v, r + 1, c),
        }
    }

    /// The item that making `m` adds to the history.
    pub open spec fn item(self, m: i16) -> HistItem {
        HistItem {
            m,
            from: self.pawn(self.turn) as usize,
            last_wall_ply: self.last_wall_ply as usize,
            lo: self.lo,
            hi: self.hi,
        }
    }

    /// The state after the move.
    pub open spec fn after(self, m: i16) -> AceState {
        let t = self.turn;
        let tlo = low_half(key_word(4, 0));
        let thi = high_half(key_word(4, 0));
        if is_pawn_move(m) {
            let a = key_word(t, self.pawn(t));
            let b = key_word(t, m as int);
            AceState {
                p0: if t == 0 {
                    m as int
                } else {
                    self.p0
                },
                p1: if t == 0 {
                    self.p1
                } else {
                    m as int
                },
                turn: 1 - t,
                lo: self.lo ^ low_half(a) ^ low_half(b) ^ tlo,
                hi: self.hi ^ high_half(a) ^ high_half(b) ^ thi,
                hist: self.hist.push(self.item(m)),
                ..self
            }
        } else {
            let s = wall_slot(m);
            let horizontal = is_h_wall(m);
            let w = key_word(
                if horizontal {
                    2
                } else {
                    3
                },
                s,
            );
            AceState {
                h: if horizontal {
                    with_slot(self.h, s / 8, s % 8, true)
                } else {
                    self.h
                },
                v: if horizontal {
                    self.v
                } else {
                    with_slot(self.v, s / 8, s % 8, true)
                },
                wl0: if t == 0 {
                    self.wl0 - 1
                } else {
                    self.wl0
                },
                wl1: if t == 0 {
                    self.wl1
                } else {
                    self.wl1 - 1
                },
                turn: 1 - t,
                lo: self.lo ^ low_half(w) ^ tlo,
                hi: self.hi ^ high_half(w) ^ thi,
                hist: self.hist.push(self.item(m)),
                last_wall_ply: self.hist.len() as int + 1,
                stamp: self.stamp + 1,
                ..self
            }
        }
    }

    /// The state before the last move.
    pub open spec fn before(self) -> AceState {
        let x = self.hist.last();
        let t = 1 - self.turn;
        if is_pawn_move(x.m) {
            AceState {
                p0: if t == 0 {
                    x.from as int
                } else {
                    self.p0
                },
                p1: if t == 0 {
                    self.p1
                } else {
                    x.from as int
                },
                turn: t,
                lo: x.lo,
                hi: x.hi,
                hist: self.hist.drop_last(),
                last_wall_ply: x.last_wall_ply as int,
                ..self
            }
        } else {
            let s = wall_slot(x.m);
            let horizontal = is_h_wall(x.m);
            AceState {
                h: if horizontal {
                    with_slot(self.h, s / 8, s % 8, false)
                } else {
                    self.h
                },
                v: if horizontal {
                    self.v
                } else {
                    with_slot(self.v, s / 8, s % 8, false)
                },
                wl0: if t == 0 {
                    self.wl0 + 1
                } else {
                    self.wl0
                },
                wl1: if t == 0 {
                    self.wl1
                } else {
                    self.wl1 + 1
                },
                turn: t,
                lo: x.lo,
                hi: x.hi,
                hist: self.hist.drop_last(),
                last_wall_ply: x.last_wall_ply as int,
                stamp: self.stamp - 1,
                ..self
            }
        }
    }

    /// The same position with the other side to move.
    pub open spec fn passed(self) -> AceState {
        AceState {
            turn: 1 - self.turn,
            lo: self.lo ^ low_half(key_word(4, 0)),
            hi: self.hi ^ high_half(key_word(4, 0)),
            ..self
        }
    }

    /// The last move of the history can be taken back.
    pub open spec fn undoable(self) -> bool {
        let x = self.hist.last();
        &&& self.hist.len() > 0
        &&& x.from < 81
        &&& x.last_wall_ply < self.hist.len()
        &&& {
            ||| is_pawn_move(x.m) && self.stamp < self.hist.len()
            ||| {
                &&& is_h_wall(x.m) || is_v_wall(x.m)
                &&& self.stamp > 0
                &&& self.wl(1 - self.turn) < i32::MAX
                &&& self.wall_alone(wall_slot(x.m), move_orientation(x.m))
            }
        }
    }

    /// The slot holds a wall that shares no step with another.
    pub open spec fn wall_alone(self, s: int, o: WallOrientation) -> bool {
        let r = s / 8;
        let c = s % 8;
        match o {
            WallOrientation::Horizontal => slot(self.h, r, c) && !slot(self.h, r, c - 1) && !slot(
                self.h,
                r,
                c + 1,
            ),
            WallOrientation::Vertical => slot(self.v, r, c) && !slot(self.v, r - 1, c) && !slot(
                self.v,
                r + 1,
                c,
            ),
        }
    }

    /// The player whose pawn stands on its goal row, player 0 first; -1 if none.
    pub open spec fn winner_spec(self) -> int {
        if self.p0 < 9 {
            0
        } else if self.p1 >= 72 {
            1
        } else {
            -1
        }
    }
}

/// The grid player of a side: who runs to row 8 is player one there.
pub open spec fn grid_player(side: int) -> Player {
    if side == 0 {
        Player::Two
    } else {
        Player::One
    }
}

/// Taking a move back restores the state.
pub proof fn lemma_ace_unmake_restores(s: AceState, m: i16)
    requires
        s.wf(),
        s.playable(m),
        s.hist.len() < usize::MAX,
        s.wl(s.turn) <= i32::MAX,
    ensures
        s.after(m).wf(),
        s.after(m).undoable(),
        s.after(m).before() == s,
{
    let a = s.after(m);
    assert(a.hist.drop_last() =~= s.hist);
    if !is_pawn_move(m) {
        let i = wall_slot(m);
        let r = i / 8;
        let c = i % 8;
        let w = if is_h_wall(m) {
            s.h
        } else {
            s.v
        };
        crate::position::board::lemma_set_clear(w, r, c);
        lemma_with_slot(w, r, c, true, r, c);
        lemma_with_slot(w, r, c, true, r, c - 1);
        lemma_with_slot(w, r, c, true, r, c + 1);
        lemma_with_slot(w, r, c, true, r - 1, c);
        lemma_with_slot(w, r, c, true, r + 1, c);
    }
    assert(a.before() =~= s);
}

// --- executable game ---

#[derive(Clone, Debug)]
pub struct AceGame {
    pub hw: [u8; 64],
    pub vw: [u8; 64],
    /// Directions that walls block, per cell.
    pub blocked: [u8; 81],
    pub h_word: u64,
    pub v_word: u64,
    pub pawn: [usize; 2],
    pub wl: [i32; 2],
    pub turn: usize,
    pub hash_lo: u32,
    pub hash_hi: u32,
    pub hist: Vec<HistItem>,
    pub last_wall_ply: usize,
    pub wall_stamp: i32,
}

impl View for AceGame {
    type V = AceState;

    open spec fn view(&self) -> AceState {
        AceState {
            h: self.h_word,
            v: self.v_word,
            p0: self.pawn[0] as int,
            p1: self.pawn[1] as int,
            wl0: self.wl[0] as int,
            wl1: self.wl[1] as int,
            turn: self.turn as int,
            lo: self.hash_lo,
            hi: self.hash_hi,
            hist: self.hist@,
            last_wall_ply: self.last_wall_ply as int,
            stamp: self.wall_stamp as int,
        }
    }
}

/// A wall of the words blocks direction `d` of cell `c`.
pub open spec fn wall_blocks(h: u64, v: u64, cell: int, d: int) -> bool {
    let r = cell / 9;
    let c = cell % 9;
    if d == 0 {
        slot(h, r - 1, c) || slot(h, r - 1, c - 1)
    } else if d == 1 {
        slot(h, r, c) || slot(h, r, c - 1)
    } else if d == 2 {
        slot(v, r, c - 1) || slot(v, r - 1, c - 1)
    } else {
        slot(v, r, c) || slot(v, r - 1, c)
    }
}

/// Bit `d` of a blocked mask.
pub open spec fn dir_bit(m: u8, d: int) -> bool {
    if d == 0 {
        m & 1 != 0
    } else if d == 1 {
        m & 2 != 0
    } else if d == 2 {
        m & 4 != 0
    } else {
        m & 8 != 0
    }
}

/// The arrays say what the wall words say.
pub open spec fn arrays_match(
    hw: Seq<u8>,
    vw: Seq<u8>,
    blocked: Seq<u8>,
    h: u64,
    v: u64,
) -> bool {
    &&& hw.len() == 64
    &&& vw.len() == 64
    &&& blocked.len() == 81
    &&& forall|i: int|
        0 <= i < 64 ==> #[trigger] hw[i] == (if bit64(h, i) {
            1u8
        } else {
            0u8
        })
    &&& forall|i: int|
        0 <= i < 64 ==> #[trigger] vw[i] == (if bit64(v, i) {
            1u8
        } else {
            0u8
        })
    &&& forall|c: int, d: int|
        0 <= c < 81 && 0 <= d < 4 ==> #[trigger] dir_bit(blocked[c], d) == wall_blocks(h, v, c, d)
    &&& forall|c: int| 0 <= c < 81 ==> #[trigger] blocked[c] < 16
}

proof fn bv_dir(m: u8, b: u8)
    by (bit_vector)
    requires
        b == 1 || b == 2 || b == 4 || b == 8,
        m < 16,
    ensures
        (m | b) & 1 != 0 <==> (m & 1 != 0 || b == 1),
        (m | b) & 2 != 0 <==> (m & 2 != 0 || b == 2),
        (m | b) & 4 != 0 <==> (m & 4 != 0 || b == 4),
        (m | b) & 8 != 0 <==> (m & 8 != 0 || b == 8),
        (m & !b) & 1 != 0 <==> (m & 1 != 0 && b != 1),
        (m & !b) & 2 != 0 <==> (m & 2 != 0 && b != 2),
        (m & !b) & 4 != 0 <==> (m & 4 != 0 && b != 4),
        (m & !b) & 8 != 0 <==> (m & 8 != 0 && b != 8),
        (m | b) < 16,
        (m & !b) < 16,
        0u8 & 1 == 0,
        0u8 & 2 == 0,
        0u8 & 4 == 0,
        0u8 & 8 == 0,
{
}

/// The mask with one direction set or cleared.
fn with_dir(m: u8, d: u8, on: bool) -> (r: u8)
    requires
        m < 16,
        d < 4,
    ensures
        r < 16,
        forall|e: int|
            0 <= e < 4 ==> #[trigger] dir_bit(r, e) == (if e == d {
                on
            } else {
                dir_bit(m, e)
            }),
{
    let b: u8 = DIRBIT[d as usize];
    assert(b == (if d == 0 {
        1u8
    } else if d == 1 {
        2
    } else if d == 2 {
        4
    } else {
        8
    }));
    proof {
        bv_dir(m, b);
    }
    if on {
        m | b
    } else {
        m & !b
    }
}

impl AceGame {
    /// The state is sound and the arrays agree with it.
    pub open spec fn wf(self) -> bool {
        &&& self@.wf()
        &&& arrays_match(self.hw@, self.vw@, self.blocked@, self.h_word, self.v_word)
    }

    /// The starting position.
    pub fn new() -> (g: Self)
        ensures
            g.wf(),
            g@.h == 0,
            g@.v == 0,
            g@.p0 == 76,
            g@.p1 == 4,
            g@.wl0 == 10,
            g@.wl1 == 10,
            g@.turn == 0,
            g@.lo == low_half(key_word(0, 76)) ^ low_half(key_word(1, 4)),
            g@.hi == high_half(key_word(0, 76)) ^ high_half(key_word(1, 4)),
            g@.hist == Seq::<HistItem>::empty(),
            g@.last_wall_ply == 0,
            g@.stamp == 0,
    {
        let (a, b) = zobrist_key(0, 76);
        let (c, d) = zobrist_key(1, 4);
        let g: AceGame = AceGame {
            hw: [0u8; 64],
            vw: [0u8; 64],
            blocked: [0u8; 81],
            h_word: 0,
            v_word: 0,
            pawn: [76, 4],
            wl: [10, 10],
            turn: 0,
            hash_lo: a ^ c,
            hash_hi: b ^ d,
            hist: Vec::new(),
            last_wall_ply: 0,
            wall_stamp: 0,
        };
        proof {
            lemma_no_walls();
            bv_dir(0, 1);
        }
        g
    }

    /// Number of moves played.
    pub fn hist_len(&self) -> (n: usize)
        ensures
            n == self@.hist.len(),
    {
        self.hist.len()
    }

    /// Blocks or opens the two steps that a wall in the slot crosses, both ways.
    fn set_wall_bits(&mut self, wall_type: usize, slot_no: usize, on: bool)
        requires
            slot_no < 64,
            wall_type < 2,
            forall|c: int| 0 <= c < 81 ==> #[trigger] old(self).blocked[c] < 16,
        ensures
            final(self)@ == old(self)@,
            final(self).hw == old(self).hw,
            final(self).vw == old(self).vw,
            forall|c: int| 0 <= c < 81 ==> #[trigger] final(self).blocked[c] < 16,
            forall|c: int, d: int|
                0 <= c < 81 && 0 <= d < 4 ==> #[trigger] dir_bit(final(self).blocked[c], d) == (
                if crosses(wall_type as int, slot_no as int, c, d) {
                    on
                } else {
                    dir_bit(old(self).blocked[c], d)
                }),
    {
        let r: usize = slot_no / 8;
        let c: usize = slot_no % 8;
        let a: usize = r * 9 + c;
        if wall_type == 0 {
            self.blocked[a] = with_dir(self.blocked[a], 1, on);
            self.blocked[a + 1] = with_dir(self.blocked[a + 1], 1, on);
            self.blocked[a + 9] = with_dir(self.blocked[a + 9], 0, on);
            self.blocked[a + 10] = with_dir(self.blocked[a + 10], 0, on);
        } else {
            self.blocked[a] = with_dir(self.blocked[a], 3, on);
            self.blocked[a + 9] = with_dir(self.blocked[a + 9], 3, on);
            self.blocked[a + 1] = with_dir(self.blocked[a + 1], 2, on);
            self.blocked[a + 10] = with_dir(self.blocked[a + 10], 2, on);
        }
    }
}

/// A wall in the slot crosses direction `d` of cell `c`.
pub open spec fn crosses(wall_type: int, s: int, c: int, d: int) -> bool {
    let a = s / 8 * 9 + s % 8;
    if wall_type == 0 {
        (d == 1 && (c == a || c == a + 1)) || (d == 0 && (c == a + 9 || c == a + 10))
    } else {
        (d == 3 && (c == a || c == a + 9)) || (d == 2 && (c == a + 1 || c == a + 10))
    }
}

/// Without walls nothing is blocked.
proof fn lemma_no_walls()
    ensures
        forall|i: int| 0 <= i < 64 ==> !bit64(0, i),
        forall|c: int, d: int|
            0 <= c < 81 && 0 <= d < 4 ==> !(#[trigger] wall_blocks(0, 0, c, d)),
{
    assert forall|i: int| 0 <= i < 64 implies !bit64(0, i) by {
        lemma_bits64(0, 0, i);
    }
}

/// What a wall going up or coming down changes in what is blocked.
proof fn lemma_blocks_change(h: u64, v: u64, wall_type: int, s: int, on: bool, c: int, d: int)
    requires
        0 <= s < 64,
        0 <= c < 81,
        0 <= d < 4,
        0 <= wall_type < 2,
        !on && wall_type == 0 ==> !slot(h, s / 8, s % 8 - 1) && !slot(h, s / 8, s % 8 + 1),
        !on && wall_type == 1 ==> !slot(v, s / 8 - 1, s % 8) && !slot(v, s / 8 + 1, s % 8),
    ensures
        ({
            let h2 = if wall_type == 0 {
                with_slot(h, s / 8, s % 8, on)
            } else {
                h
            };
            let v2 = if wall_type == 0 {
                v
            } else {
                with_slot(v, s / 8, s % 8, on)
            };
            wall_blocks(h2, v2, c, d) == (if crosses(wall_type, s, c, d) {
                on
            } else {
                wall_blocks(h, v, c, d)
            })
        }),
{
    let r = s / 8;
    let k = s % 8;
    let row = c / 9;
    let col = c % 9;
    assert(c == row * 9 + col);
    let w = if wall_type == 0 {
        h
    } else {
        v
    };
    lemma_with_slot(w, r, k, on, row, col);
    lemma_with_slot(w, r, k, on, row, col - 1);
    lemma_with_slot(w, r, k, on, row - 1, col);
    lemma_with_slot(w, r, k, on, row - 1, col - 1);
}

/// What a wall going up or coming down changes in the slot arrays.
proof fn lemma_slot_change(m: u64, s: int, on: bool, i: int)
    requires
        0 <= s < 64,
        0 <= i < 64,
    ensures
        bit64(with_slot(m, s / 8, s % 8, on), i) == (if i == s {
            on
        } else {
            bit64(m, i)
        }),
{
    lemma_with_slot(m, s / 8, s % 8, on, i / 8, i % 8);
    assert(i / 8 * 8 + i % 8 == i);
    assert(s / 8 * 8 + s % 8 == s);
}

impl AceGame {
    /// Puts a wall into the arrays and words, or takes it out.
    fn set_wall(&mut self, wall_type: usize, slot_no: usize, on: bool)
        requires
            old(self).wf(),
            slot_no < 64,
            wall_type < 2,
            !on && wall_type == 0 ==> old(self)@.wall_alone(
                slot_no as int,
                WallOrientation::Horizontal,
            ),
            !on && wall_type == 1 ==> old(self)@.wall_alone(
                slot_no as int,
                WallOrientation::Vertical,
            ),
        ensures
            final(self).wf(),
            final(self)@ == (AceState {
                h: if wall_type == 0 {
                    with_slot(old(self)@.h, slot_no as int / 8, slot_no as int % 8, on)
                } else {
                    old(self)@.h
                },
                v: if wall_type == 0 {
                    old(self)@.v
                } else {
                    with_slot(old(self)@.v, slot_no as int / 8, slot_no as int % 8, on)
                },
                ..old(self)@
            }),
    {
        let ghost h = self.h_word;
        let ghost v = self.v_word;
        let bit: u64 = 1u64 << (slot_no as u64);
        let byte: u8 = if on {
            1
        } else {
            0
        };
        self.set_wall_bits(wall_type, slot_no, on);
        if wall_type == 0 {
            self.hw[slot_no] = byte;
            self.h_word = if on {
                self.h_word | bit
            } else {
                self.h_word & !bit
            };
        } else {
            self.vw[slot_no] = byte;
            self.v_word = if on {
                self.v_word | bit
            } else {
                self.v_word & !bit
            };
        }
        proof {
            let s = slot_no as int;
            assert(s / 8 * 8 + s % 8 == s);
            assert forall|i: int| 0 <= i < 64 implies #[trigger] self.hw@[i] == (if bit64(
                self.h_word,
                i,
            ) {
                1u8
            } else {
                0u8
            }) by {
                lemma_slot_change(h, s, on, i);
                assert(old(self).hw@[i] == (if bit64(h, i) {
                    1u8
                } else {
                    0u8
                }));
            }
            assert forall|i: int| 0 <= i < 64 implies #[trigger] self.vw@[i] == (if bit64(
                self.v_word,
                i,
            ) {
                1u8
            } else {
                0u8
            }) by {
                lemma_slot_change(v, s, on, i);
                assert(old(self).vw@[i] == (if bit64(v, i) {
                    1u8
                } else {
                    0u8
                }));
            }
            assert forall|c: int, d: int| 0 <= c < 81 && 0 <= d < 4 implies #[trigger] dir_bit(
                self.blocked@[c],
                d,
            ) == wall_blocks(self.h_word, self.v_word, c, d) by {
                lemma_blocks_change(h, v, wall_type as int, s, on, c, d);
                assert(dir_bit(old(self).blocked@[c], d) == wall_blocks(h, v, c, d));
                assert(dir_bit(self.blocked[c], d) == dir_bit(self.blocked@[c], d));
            }
        }
    }

    /// Replaces the walls by those of two words.
    pub fn load_walls(&mut self, h: u64, v: u64)
        requires
            old(self)@.wf(),
        ensures
            final(self).wf(),
            final(self)@ == (AceState { h, v, ..old(self)@ }),
    {
        self.hw = [0u8; 64];
        self.vw = [0u8; 64];
        self.blocked = [0u8; 81];
        self.h_word = 0;
        self.v_word = 0;
        proof {
            lemma_no_walls();
            bv_dir(0, 1);
        }
        let mut s: usize = 0;
        while s < 64
            invariant
                s <= 64,
                self.wf(),
                self@ == (AceState { h: self.h_word, v: self.v_word, ..old(self)@ }),
                forall|i: int| 0 <= i < 64 ==> #[trigger] bit64(self.h_word, i) == (i < s && bit64(h, i)),
                forall|i: int| 0 <= i < 64 ==> #[trigger] bit64(self.v_word, i) == (i < s && bit64(v, i)),
            decreases 64 - s,
        {
            let ghost h0 = self.h_word;
            let ghost v0 = self.v_word;
            if (h >> (s as u64)) & 1 == 1 {
                self.set_wall(0, s, true);
            }
            if (v >> (s as u64)) & 1 == 1 {
                self.set_wall(1, s, true);
            }
            proof {
                assert forall|i: int| 0 <= i < 64 implies #[trigger] bit64(self.h_word, i) == (i < s
                    + 1 && bit64(h, i)) by {
                    lemma_slot_change(h0, s as int, true, i);
                    assert(bit64(h0, i) == (i < s && bit64(h, i)));
                }
                assert forall|i: int| 0 <= i < 64 implies #[trigger] bit64(self.v_word, i) == (i < s
                    + 1 && bit64(v, i)) by {
                    lemma_slot_change(v0, s as int, true, i);
                    assert(bit64(v0, i) == (i < s && bit64(v, i)));
                }
            }
            s = s + 1;
        }
        proof {
            lemma_ext64(self.h_word, h);
            lemma_ext64(self.v_word, v);
        }
    }

    /// Plays a move.
    pub fn make_move(&mut self, m: i16)
        requires
            old(self).wf(),
            old(self)@.playable(m),
            old(self)@.hist.len() < i32::MAX,
        ensures
            final(self).wf(),
            final(self)@ == old(self)@.after(m),
    {
        let t: usize = self.turn;
        let item: HistItem = HistItem {
            m,
            from: self.pawn[t],
            last_wall_ply: self.last_wall_ply,
            lo: self.hash_lo,
            hi: self.hash_hi,
        };
        let (tl, th) = zobrist_key(4, 0);
        if m < 100 {
            let (al, ah) = zobrist_key(t as u64, self.pawn[t] as u64);
            let (bl, bh) = zobrist_key(t as u64, m as u64);
            self.hash_lo = self.hash_lo ^ al ^ bl ^ tl;
            self.hash_hi = self.hash_hi ^ ah ^ bh ^ th;
            self.pawn[t] = m as usize;
        } else {
            let wall_type: usize = if m < 200 {
                0
            } else {
                1
            };
            let slot_no: usize = (m % 100) as usize;
            self.set_wall(wall_type, slot_no, true);
            let (wl, wh) = zobrist_key(2 + wall_type as u64, slot_no as u64);
            self.hash_lo = self.hash_lo ^ wl ^ tl;
            self.hash_hi = self.hash_hi ^ wh ^ th;
            self.wl[t] = self.wl[t] - 1;
            self.last_wall_ply = self.hist.len() + 1;
            self.wall_stamp = self.wall_stamp + 1;
        }
        self.turn = 1 - t;
        self.hist.push(item);
        assert(self@ =~= old(self)@.after(m));
    }

    /// Gives the turn to the other side.
    pub fn pass(&mut self)
        requires
            old(self).wf(),
        ensures
            final(self).wf(),
            final(self)@ == old(self)@.passed(),
    {
        let (lo, hi) = zobrist_key(4, 0);
        self.turn = 1 - self.turn;
        self.hash_lo = self.hash_lo ^ lo;
        self.hash_hi = self.hash_hi ^ hi;
    }

    /// Takes the last move back.
    pub fn unmake_move(&mut self)
        requires
            old(self).wf(),
            old(self)@.undoable(),
        ensures
            final(self).wf(),
            final(self)@ == old(self)@.before(),
    {
        let ghost last = self.hist@.last();
        match self.hist.pop() {
            Some(item) => {
                let t: usize = 1 - self.turn;
                self.turn = t;
                if item.m < 100 {
                    self.pawn[t] = item.from;
                } else {
                    let wall_type: usize = if item.m < 200 {
                        0
                    } else {
                        1
                    };
                    let slot_no: usize = (item.m % 100) as usize;
                    self.wall_stamp = self.wall_stamp - 1;
                    self.last_wall_ply = item.last_wall_ply;
                    self.set_wall(wall_type, slot_no, false);
                    self.wl[t] = self.wl[t] + 1;
                }
                self.last_wall_ply = item.last_wall_ply;
                self.hash_lo = item.lo;
                self.hash_hi = item.hi;
                assert(self@ =~= old(self)@.before());
            },
            None => {},
        }
    }

    /// The player whose pawn stands on its goal row, player 0 first; -1 if none.
    pub fn winner(&self) -> (w: i32)
        requires
            self@.wf(),
        ensures
            w == self@.winner_spec(),
    {
        if self.pawn[0] < 9 {
            0
        } else if self.pawn[1] >= 72 {
            1
        } else {
            -1
        }
    }

    /// The position as a board in this row order.
    pub fn grid(&self) -> (b: Board)
        requires
            self@.wf(),
        ensures
            self@.grid_is(b),
            b.wf(),
    {
        let p0: (u8, u8) = ((self.pawn[0] / 9) as u8, (self.pawn[0] % 9) as u8);
        let p1: (u8, u8) = ((self.pawn[1] / 9) as u8, (self.pawn[1] % 9) as u8);
        let b: Board = Board {
            pawns: [p1, p0],
            walls_remaining: [0, 0],
            horizontal_walls: self.h_word,
            vertical_walls: self.v_word,
            side_to_move: if self.turn == 0 {
                Player::Two
            } else {
                Player::One
            },
            move_number: 1,
            hash: 0,
            verify: 0,
        };
        assert(b.pawns@ =~= seq![p1, p0]);
        b
    }

    /// Whether a wall of the type (0 horizontal, 1 vertical) collides with nothing.
    pub fn wall_fits(&self, wall_type: usize, slot_no: usize) -> (r: bool)
        requires
            self@.wf(),
            slot_no < 64,
            wall_type < 2,
        ensures
            r == !self@.wall_collides(slot_no as int, type_orientation(wall_type as int)),
    {
        let b: Board = self.grid();
        !wall_collides(&b, (slot_no / 8) as u8, (slot_no % 8) as u8, orientation(wall_type))
    }

    /// Whether a wall of the type is held at two of its three points.
    pub fn wall_needs_path_check(&self, wall_type: usize, slot_no: usize) -> (r: bool)
        requires
            self@.wf(),
            slot_no < 64,
            wall_type < 2,
        ensures
            forall|b: Board| #[trigger]
                self@.grid_is(b) ==> r == anchored(
                    b,
                    slot_no as int / 8,
                    slot_no as int % 8,
                    type_orientation(wall_type as int),
                ),
    {
        let b: Board = self.grid();
        can_wall_block_topology(
            &b,
            (slot_no / 8) as u8,
            (slot_no % 8) as u8,
            orientation(wall_type),
        )
    }

    /// Whether a wall of the type is legal.
    pub fn wall_legal(&self, wall_type: usize, slot_no: usize) -> (r: bool)
        requires
            self@.wf(),
            slot_no < 64,
            wall_type < 2,
        ensures
            r == self@.wall_legal_spec(slot_no as int, type_orientation(wall_type as int)),
    {
        let b: Board = self.grid();
        proof {
            reveal(AceState::wall_legal_spec);
            lemma_grid_unique(self@, b, self@.grid_board(), slot_no as int);
            assert(slot_no as int / 8 * 8 + slot_no as int % 8 == slot_no);
        }
        is_legal_wall(&b, (slot_no / 8) as u8, (slot_no % 8) as u8, orientation(wall_type))
    }

    /// Whether the player's pawn is connected to its goal row.
    pub fn has_path(&self, player: usize) -> (r: bool)
        requires
            self@.wf(),
            player < 2,
        ensures
            r == self@.has_path_spec(player as int),
    {
        let b: Board = self.grid();
        proof {
            lemma_grid_paths(self@, b);
        }
        can_reach_goal(
            &b,
            if player == 0 {
                Player::Two
            } else {
                Player::One
            },
        )
    }

    /// Distances of all cells to the player's goal row, 255 where there is no way.
    pub fn compute_dist(&self, player: usize, out: &mut [u8; 81])
        requires
            self@.wf(),
            player < 2,
        ensures
            is_field(
                final(out)@,
                wall_steps(self@.h, self@.v),
                goal_squares(grid_player(player as int)),
            ),
    {
        let b: Board = self.grid();
        let masks: DirMasks = DirMasks::from_board(&b);
        let p: Player = if player == 0 {
            Player::Two
        } else {
            Player::One
        };
        fill_dist_to_goal_row(p, masks, out);
        proof {
            lemma_field_steps(out@, masks, board_steps(b), goal_squares(p));
        }
    }

    /// Distances of all cells from one cell, 255 where there is no way.
    pub fn dist_from(&self, cell: usize, out: &mut [u8; 81])
        requires
            self@.wf(),
            cell < 81,
        ensures
            is_field(final(out)@, wall_steps(self@.h, self@.v), only(cell as int)),
    {
        let b: Board = self.grid();
        let masks: DirMasks = DirMasks::from_board(&b);
        fill_dist_from_sq(cell as u8, masks, out);
        proof {
            lemma_field_steps(out@, masks, board_steps(b), only(cell as int));
        }
    }

    /// Writes the cells that the player on turn can move to, from `off` on.
    pub fn gen_pawn_moves(&self, out: &mut [i16], off: usize) -> (n: usize)
        requires
            self@.wf(),
            off + self@.pawn_cells().len() <= old(out)@.len(),
        ensures
            n == off + self@.pawn_cells().len(),
            final(out)@ == written(old(out)@, off as int, self@.pawn_cells()),
    {
        let b: Board = self.grid();
        let ghost moves = player_pawn_moves(b, b.side_to_move);
        proof {
            lemma_grid_moves(self@, b);
            lemma_pawn_moves_len(
                b.horizontal_walls,
                b.vertical_walls,
                at(b, b.side_to_move),
                at(b, b.side_to_move.opposite_spec()),
            );
            lemma_pawn_moves_land(
                b.horizontal_walls,
                b.vertical_walls,
                at(b, b.side_to_move),
                at(b, b.side_to_move.opposite_spec()),
            );
        }
        let mut buf: [Move; 8] = [Move::Pawn { row: 0, col: 0 }; 8];
        let k: usize = generate_pawn_moves_scalar_for(&b, b.side_to_move, &mut buf);
        let mut i: usize = 0;
        let total: usize = out.len();
        let ghost cells = self@.pawn_cells();
        assert(out@ =~= written(old(out)@, off as int, cells.subrange(0, 0)));
        while i < k
            invariant
                i <= k <= 5,
                k == cells.len(),
                cells == self@.pawn_cells(),
                cells == moves.map_values(|m: Move| move_cell(m)),
                forall|j: int| 0 <= j < k ==> buf[j] == moves[j],
                forall|j: int| 0 <= j < moves.len() ==> lands_on_board(#[trigger] moves[j]),
                off + cells.len() <= old(out)@.len() == total,
                out@ == written(old(out)@, off as int, cells.subrange(0, i as int)),
            decreases k - i,
        {
            assert(lands_on_board(moves[i as int]));
            let cell: i16 = match buf[i] {
                Move::Pawn { row, col } => row as i16 * 9 + col as i16,
                Move::Wall { .. } => 0,
            };
            assert(cell == cells[i as int]);
            out[off + i] = cell;
            assert(out@ =~= written(old(out)@, off as int, cells.subrange(0, i + 1)));
            i = i + 1;
        }
        assert(cells.subrange(0, k as int) =~= cells);
        off + k
    }
}

/// The orientation of a wall type.
pub open spec fn type_orientation(wall_type: int) -> WallOrientation {
    if wall_type == 0 {
        WallOrientation::Horizontal
    } else {
        WallOrientation::Vertical
    }
}

fn orientation(wall_type: usize) -> (o: WallOrientation)
    ensures
        o == type_orientation(wall_type as int),
{
    if wall_type == 0 {
        WallOrientation::Horizontal
    } else {
        WallOrientation::Vertical
    }
}

/// The cell of a pawn move.
pub open spec fn move_cell(mv: Move) -> i16 {
    match mv {
        Move::Pawn { row, col } => (row * 9 + col) as i16,
        Move::Wall { .. } => 0,
    }
}

/// The cells that a pawn on `from` can move to with the opponent on `opp`.
#[verifier::opaque]
pub open spec fn pawn_cells_of(h: u64, v: u64, from: int, opp: int) -> Seq<i16> {
    pawn_moves(h, v, (from / 9, from % 9), (opp / 9, opp % 9)).map_values(|m: Move| move_cell(m))
}

/// A pawn has at most five cells to go to, all on the board.
pub proof fn lemma_pawn_cells(h: u64, v: u64, from: int, opp: int)
    requires
        0 <= from < 81,
    ensures
        pawn_cells_of(h, v, from, opp).len() <= 5,
        forall|i: int|
            0 <= i < pawn_cells_of(h, v, from, opp).len() ==> 0 <= #[trigger] pawn_cells_of(
                h,
                v,
                from,
                opp,
            )[i] < 81,
{
    reveal(pawn_cells_of);
    let f = (from / 9, from % 9);
    let o = (opp / 9, opp % 9);
    lemma_pawn_moves_land(h, v, f, o);
    lemma_pawn_moves_len(h, v, f, o);
    let mv = pawn_moves(h, v, f, o);
    let cells = pawn_cells_of(h, v, from, opp);
    assert forall|i: int| 0 <= i < cells.len() implies 0 <= #[trigger] cells[i] < 81 by {
        assert(lands_on_board(mv[i]));
    }
}

impl AceState {
    /// Some board that shows the position.
    pub open spec fn grid_board(self) -> Board {
        choose|b: Board| self.grid_is(b)
    }

    /// The cells that the player on turn can move to.
    pub open spec fn pawn_cells(self) -> Seq<i16> {
        pawn_cells_of(self.h, self.v, self.pawn(self.turn), self.pawn(1 - self.turn))
    }

    /// The player's pawn is connected to its goal row.
    pub open spec fn has_path_spec(self, p: int) -> bool {
        crate::path::graph::reach(
            wall_steps(self.h, self.v),
            goal_squares(grid_player(p)),
            self.pawn(p),
        )
    }

    /// The player's distance to its goal row, 255 if there is no way.
    pub open spec fn goal_dist(self, p: int) -> int {
        crate::path::graph::dist(
            wall_steps(self.h, self.v),
            goal_squares(grid_player(p)),
            self.pawn(p),
        )
    }

    /// A wall in the slot is legal: it collides with nothing, and if it is held
    /// at two points both players keep a way.
    #[verifier::opaque]
    pub open spec fn wall_legal_spec(self, s: int, o: WallOrientation) -> bool {
        loose(self.grid_board(), s, o) || tested(self.grid_board(), s, o)
    }
}

/// Boards that show one position agree on walls.
pub proof fn lemma_grid_unique(st: AceState, a: Board, b: Board, s: int)
    requires
        st.grid_is(a),
    ensures
        st.grid_is(b) ==> forall|o: WallOrientation| #[trigger] loose(a, s, o) == loose(b, s, o),
        st.grid_is(b) ==> forall|o: WallOrientation| #[trigger]
            tested(a, s, o) == tested(b, s, o),
        st.grid_is(st.grid_board()),
{
    if st.grid_is(b) {
        assert forall|o: WallOrientation| #[trigger] tested(a, s, o) == tested(b, s, o) by {
            assert(a.pawns@[0] == b.pawns@[0] && a.pawns@[1] == b.pawns@[1]);
            assert(a.pawns[0] == b.pawns[0] && a.pawns[1] == b.pawns[1]);
        }
    }
}

/// Paths of the position and of its board.
pub proof fn lemma_grid_paths(st: AceState, b: Board)
    requires
        st.wf(),
        st.grid_is(b),
    ensures
        has_path(b, Player::Two) == st.has_path_spec(0),
        has_path(b, Player::One) == st.has_path_spec(1),
{
    assert(b.pawns[0] == b.pawns@[0] && b.pawns[1] == b.pawns@[1]);
    assert(st.p1 / 9 * 9 + st.p1 % 9 == st.p1);
    assert(st.p0 / 9 * 9 + st.p0 % 9 == st.p0);
}

/// Pawn moves of the position and of its board.
proof fn lemma_grid_moves(st: AceState, b: Board)
    requires
        st.wf(),
        st.grid_is(b),
    ensures
        st.pawn_cells() == player_pawn_moves(b, b.side_to_move).map_values(
            |m: Move| move_cell(m),
        ),
{
    reveal(pawn_cells_of);
    assert(b.pawns[0] == b.pawns@[0] && b.pawns[1] == b.pawns@[1]);
}

} // verus!
