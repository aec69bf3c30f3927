//! Wall candidates by shift algebra on whole boards, and pawn moves by table.
//!
//! Each wall mask has one bit per slot: no overlap, crossing or running into
//! another wall (`l12`), and held at two of three points (`topo`).

use vstd::prelude::*;

use crate::movegen::o1::gen::geometry::MiniBoard;
use crate::movegen::o1::gen::pawn::{
    combo_h, combo_of, combo_v, is_combo_mask, layer_enemy, layer_exists, lemma_apart,
    lemma_combo_agrees, lemma_combo_counts, lemma_combo_of, mini_mask, same_moves,
};
use crate::movegen::o1::gen::pseudo_moves::{
    is_catalog, is_mask, lemma_mask_high, pawn_moves_by_slot, pseudo_catalog, slot_legal,
    slot_offset, slot_square, sq_on_board,
};
use crate::movegen::o1::runtime::{remap_base, PawnTables};
use crate::movegen::pawn_bits::{generate_pawn_moves_shift_slice, written};
use crate::movegen::rules::{
    anchored, at, collides, mover_pawn_moves_by_axis, pawn_to, shifted, touches_a, touches_b, Sq,
};
use crate::position::board::{Board, Move, WallOrientation};
use crate::util::bits::{
    ascending, bit64, lemma_ascending_members, lemma_ascending_same, lemma_ascending_skip,
    lemma_ascending_split, lemma_bits64, lemma_empty64, lemma_pop_ascending, lemma_shift64,
    pop_lowest,
};
use crate::util::grid::{has_wall, slot, square_index};

verus! {

pub const COL_0: u64 = 0x0101_0101_0101_0101;

pub const COL_7: u64 = 0x8080_8080_8080_8080;

pub const ROW_0: u64 = 0xFF;

pub const ROW_7: u64 = 0xFF00_0000_0000_0000;

proof fn bv_borders(j: u64)
    by (bit_vector)
    requires
        j < 64,
    ensures
        (0x0101_0101_0101_0101u64 >> j) & 1 == 1 <==> j % 8 == 0,
        (0x8080_8080_8080_8080u64 >> j) & 1 == 1 <==> j % 8 == 7,
        (0x0303_0303_0303_0303u64 >> j) & 1 == 1 <==> j % 8 < 2,
        (0xC0C0_C0C0_C0C0_C0C0u64 >> j) & 1 == 1 <==> j % 8 >= 6,
        (0xFFu64 >> j) & 1 == 1 <==> j < 8,
        (0xFF00_0000_0000_0000u64 >> j) & 1 == 1 <==> j >= 56,
{
}

/// The border words by slot.
proof fn lemma_borders(r: int, c: int)
    requires
        0 <= r < 8,
        0 <= c < 8,
    ensures
        slot(COL_0, r, c) == (c == 0),
        slot(COL_7, r, c) == (c == 7),
        slot(0x0303_0303_0303_0303, r, c) == (c < 2),
        slot(0xC0C0_C0C0_C0C0_C0C0, r, c) == (c >= 6),
        slot(ROW_0, r, c) == (r == 0),
        slot(ROW_7, r, c) == (r == 7),
{
    bv_borders((r * 8 + c) as u64);
}

/// Set operations by slot.
pub proof fn lemma_slot_ops(m: u64, n: u64, r: int, c: int)
    requires
        0 <= r < 8,
        0 <= c < 8,
    ensures
        slot(m | n, r, c) == (slot(m, r, c) || slot(n, r, c)),
        slot(m & n, r, c) == (slot(m, r, c) && slot(n, r, c)),
        slot(!m, r, c) == !slot(m, r, c),
{
    lemma_bits64(m, n, r * 8 + c);
}

/// `y` is `x` moved so that slot `(r, c)` shows what was at `(r + dr, c + dc)`.
pub open spec fn moved(x: u64, y: u64, dr: int, dc: int) -> bool {
    forall|r: int, c: int|
        0 <= r < 8 && 0 <= c < 8 ==> #[trigger] slot(y, r, c) == slot(x, r + dr, c + dc)
}

#[inline]
fn east1(x: u64) -> (y: u64)
    ensures
        moved(x, y, 0, -1),
{
    let s: u64 = x << 1;
    let y: u64 = s & !COL_0;
    proof {
        assert forall|r: int, c: int| 0 <= r < 8 && 0 <= c < 8 implies #[trigger] slot(y, r, c)
            == slot(x, r, c - 1) by {
            lemma_slot_ops(s, !COL_0, r, c);
            lemma_slot_ops(COL_0, COL_0, r, c);
            lemma_borders(r, c);
            lemma_shift64(x, 1, r * 8 + c);
        }
    }
    y
}

#[inline]
fn east2(x: u64) -> (y: u64)
    ensures
        moved(x, y, 0, -2),
{
    let s: u64 = x << 2;
    let y: u64 = s & !0x0303_0303_0303_0303u64;
    proof {
        assert forall|r: int, c: int| 0 <= r < 8 && 0 <= c < 8 implies #[trigger] slot(y, r, c)
            == slot(x, r, c - 2) by {
            lemma_slot_ops(s, !0x0303_0303_0303_0303u64, r, c);
            lemma_slot_ops(0x0303_0303_0303_0303u64, 0, r, c);
            lemma_borders(r, c);
            lemma_shift64(x, 2, r * 8 + c);
        }
    }
    y
}

#[inline]
fn west1(x: u64) -> (y: u64)
    ensures
        moved(x, y, 0, 1),
{
    let s: u64 = x >> 1;
    let y: u64 = s & !COL_7;
    proof {
        assert forall|r: int, c: int| 0 <= r < 8 && 0 <= c < 8 implies #[trigger] slot(y, r, c)
            == slot(x, r, c + 1) by {
            lemma_slot_ops(s, !COL_7, r, c);
            lemma_slot_ops(COL_7, COL_7, r, c);
            lemma_borders(r, c);
            lemma_shift64(x, 1, r * 8 + c);
        }
    }
    y
}

#[inline]
fn west2(x: u64) -> (y: u64)
    ensures
        moved(x, y, 0, 2),
{
    let s: u64 = x >> 2;
    let y: u64 = s & !0xC0C0_C0C0_C0C0_C0C0u64;
    proof {
        assert forall|r: int, c: int| 0 <= r < 8 && 0 <= c < 8 implies #[trigger] slot(y, r, c)
            == slot(x, r, c + 2) by {
            lemma_slot_ops(s, !0xC0C0_C0C0_C0C0_C0C0u64, r, c);
            lemma_slot_ops(0xC0C0_C0C0_C0C0_C0C0u64, 0, r, c);
            lemma_borders(r, c);
            lemma_shift64(x, 2, r * 8 + c);
        }
    }
    y
}

/// Moves rows down: slot `(r, c)` shows `(r + 1, c)`.
#[inline]
fn rows_down1(x: u64) -> (y: u64)
    ensures
        moved(x, y, 1, 0),
{
    let y: u64 = x >> 8;
    proof {
        assert forall|r: int, c: int| 0 <= r < 8 && 0 <= c < 8 implies #[trigger] slot(y, r, c)
            == slot(x, r + 1, c) by {
            lemma_shift64(x, 8, r * 8 + c);
        }
    }
    y
}

/// Moves rows up: slot `(r, c)` shows `(r - 1, c)`.
#[inline]
fn rows_up1(x: u64) -> (y: u64)
    ensures
        moved(x, y, -1, 0),
{
    let y: u64 = x << 8;
    proof {
        assert forall|r: int, c: int| 0 <= r < 8 && 0 <= c < 8 implies #[trigger] slot(y, r, c)
            == slot(x, r - 1, c) by {
            lemma_shift64(x, 8, r * 8 + c);
        }
    }
    y
}

#[inline]
fn rows_down2(x: u64) -> (y: u64)
    ensures
        moved(x, y, 2, 0),
{
    let y: u64 = x >> 16;
    proof {
        assert forall|r: int, c: int| 0 <= r < 8 && 0 <= c < 8 implies #[trigger] slot(y, r, c)
            == slot(x, r + 2, c) by {
            lemma_shift64(x, 16, r * 8 + c);
        }
    }
    y
}

#[inline]
fn rows_up2(x: u64) -> (y: u64)
    ensures
        moved(x, y, -2, 0),
{
    let y: u64 = x << 16;
    proof {
        assert forall|r: int, c: int| 0 <= r < 8 && 0 <= c < 8 implies #[trigger] slot(y, r, c)
            == slot(x, r - 2, c) by {
            lemma_shift64(x, 16, r * 8 + c);
        }
    }
    y
}

#[inline]
fn two_of_three(a: u64, b: u64, m: u64) -> (y: u64)
    ensures
        forall|r: int, c: int|
            0 <= r < 8 && 0 <= c < 8 ==> #[trigger] slot(y, r, c) == ((slot(a, r, c) && slot(
                b,
                r,
                c,
            )) || (slot(a, r, c) && slot(m, r, c)) || (slot(b, r, c) && slot(m, r, c))),
{
    let y: u64 = (a & b) | (m & (a | b));
    proof {
        assert forall|r: int, c: int| 0 <= r < 8 && 0 <= c < 8 implies #[trigger] slot(y, r, c) == ((
        slot(a, r, c) && slot(b, r, c)) || (slot(a, r, c) && slot(m, r, c)) || (slot(b, r, c)
            && slot(m, r, c))) by {
            lemma_slot_ops(a & b, m & (a | b), r, c);
            lemma_slot_ops(a, b, r, c);
            lemma_slot_ops(m, a | b, r, c);
        }
    }
    y
}

/// The union of five sets.
#[inline]
fn any_of5(a: u64, b: u64, c: u64, d: u64, e: u64) -> (y: u64)
    ensures
        forall|i: int, j: int|
            0 <= i < 8 && 0 <= j < 8 ==> #[trigger] slot(y, i, j) == (slot(a, i, j) || slot(
                b,
                i,
                j,
            ) || slot(c, i, j) || slot(d, i, j) || slot(e, i, j)),
{
    let y: u64 = a | b | c | d | e;
    proof {
        assert forall|i: int, j: int| 0 <= i < 8 && 0 <= j < 8 implies #[trigger] slot(y, i, j) == (
        slot(a, i, j) || slot(b, i, j) || slot(c, i, j) || slot(d, i, j) || slot(e, i, j)) by {
            lemma_slot_ops(a | b | c | d, e, i, j);
            lemma_slot_ops(a | b | c, d, i, j);
            lemma_slot_ops(a | b, c, i, j);
            lemma_slot_ops(a, b, i, j);
        }
    }
    y
}

/// `m` marks the slots where `anchored` holds of the orientation.
pub open spec fn marks_anchored(m: u64, b: Board, orientation: WallOrientation) -> bool {
    forall|r: int, c: int|
        0 <= r < 8 && 0 <= c < 8 ==> #[trigger] slot(m, r, c) == anchored(b, r, c, orientation)
}

/// `m` marks the slots where a wall of the orientation collides with nothing.
pub open spec fn marks_clear(m: u64, b: Board, orientation: WallOrientation) -> bool {
    forall|r: int, c: int|
        0 <= r < 8 && 0 <= c < 8 ==> #[trigger] slot(m, r, c) == !collides(b, r, c, orientation)
}

#[inline]
fn topo_h_from(b: &Board) -> (y: u64)
    ensures
        marks_anchored(y, *b, WallOrientation::Horizontal),
{
    let h: u64 = b.horizontal_walls;
    let v: u64 = b.vertical_walls;
    let down: u64 = rows_down1(v);
    let up: u64 = rows_up1(v);
    let a1: u64 = east1(v);
    let a2: u64 = east1(down);
    let a3: u64 = east1(up);
    let a4: u64 = east2(h);
    let b1: u64 = west1(v);
    let b2: u64 = west1(down);
    let b3: u64 = west1(up);
    let b4: u64 = west2(h);
    let side_a: u64 = any_of5(COL_0, a1, a2, a3, a4);
    let side_b: u64 = any_of5(COL_7, b1, b2, b3, b4);
    let middle: u64 = down | up;
    let y: u64 = two_of_three(side_a, side_b, middle);
    proof {
        let o = WallOrientation::Horizontal;
        assert forall|r: int, c: int| 0 <= r < 8 && 0 <= c < 8 implies #[trigger] slot(y, r, c)
            == anchored(*b, r, c, o) by {
            lemma_borders(r, c);
            lemma_slot_ops(down, up, r, c);
            assert(slot(side_a, r, c) == touches_a(*b, r, c, o)) by {
                assert(slot(a1, r, c) == slot(v, r, c - 1));
                assert(slot(a2, r, c) == slot(down, r, c - 1));
                assert(slot(a3, r, c) == slot(up, r, c - 1));
                assert(slot(a4, r, c) == slot(h, r, c - 2));
                if c > 0 {
                    assert(slot(down, r, c - 1) == slot(v, r + 1, c - 1));
                    assert(slot(up, r, c - 1) == slot(v, r - 1, c - 1));
                }
            }
            assert(slot(side_b, r, c) == touches_b(*b, r, c, o)) by {
                assert(slot(b1, r, c) == slot(v, r, c + 1));
                assert(slot(b2, r, c) == slot(down, r, c + 1));
                assert(slot(b3, r, c) == slot(up, r, c + 1));
                assert(slot(b4, r, c) == slot(h, r, c + 2));
                if c < 7 {
                    assert(slot(down, r, c + 1) == slot(v, r + 1, c + 1));
                    assert(slot(up, r, c + 1) == slot(v, r - 1, c + 1));
                }
            }
            assert(slot(down, r, c) == slot(v, r + 1, c));
            assert(slot(up, r, c) == slot(v, r - 1, c));
        }
    }
    y
}

#[inline]
fn topo_v_from(b: &Board) -> (y: u64)
    ensures
        marks_anchored(y, *b, WallOrientation::Vertical),
{
    let h: u64 = b.horizontal_walls;
    let v: u64 = b.vertical_walls;
    let down: u64 = rows_down1(h);
    let up: u64 = rows_up1(h);
    let a2: u64 = east1(down);
    let a3: u64 = west1(down);
    let a4: u64 = rows_down2(v);
    let b2: u64 = east1(up);
    let b3: u64 = west1(up);
    let b4: u64 = rows_up2(v);
    let m1: u64 = east1(h);
    let m2: u64 = west1(h);
    let side_a: u64 = any_of5(ROW_7, down, a2, a3, a4);
    let side_b: u64 = any_of5(ROW_0, up, b2, b3, b4);
    let middle: u64 = m1 | m2;
    let y: u64 = two_of_three(side_a, side_b, middle);
    proof {
        let o = WallOrientation::Vertical;
        assert forall|r: int, c: int| 0 <= r < 8 && 0 <= c < 8 implies #[trigger] slot(y, r, c)
            == anchored(*b, r, c, o) by {
            lemma_borders(r, c);
            lemma_slot_ops(m1, m2, r, c);
            assert(slot(side_a, r, c) == touches_a(*b, r, c, o)) by {
                assert(slot(down, r, c) == slot(h, r + 1, c));
                assert(slot(a2, r, c) == slot(down, r, c - 1));
                assert(slot(a3, r, c) == slot(down, r, c + 1));
                assert(slot(a4, r, c) == slot(v, r + 2, c));
                if c > 0 {
                    assert(slot(down, r, c - 1) == slot(h, r + 1, c - 1));
                }
                if c < 7 {
                    assert(slot(down, r, c + 1) == slot(h, r + 1, c + 1));
                }
            }
            assert(slot(side_b, r, c) == touches_b(*b, r, c, o)) by {
                assert(slot(up, r, c) == slot(h, r - 1, c));
                assert(slot(b2, r, c) == slot(up, r, c - 1));
                assert(slot(b3, r, c) == slot(up, r, c + 1));
                assert(slot(b4, r, c) == slot(v, r - 2, c));
                if c > 0 {
                    assert(slot(up, r, c - 1) == slot(h, r - 1, c - 1));
                }
                if c < 7 {
                    assert(slot(up, r, c + 1) == slot(h, r - 1, c + 1));
                }
            }
            assert(slot(m1, r, c) == slot(h, r, c - 1));
            assert(slot(m2, r, c) == slot(h, r, c + 1));
        }
    }
    y
}

/// All wall candidate masks of one position.
#[derive(Debug, Clone, Copy, PartialEq, Eq, Structural)]
pub struct WallMasks {
    pub l12_h: u64,
    pub l12_v: u64,
    pub topo_h: u64,
    pub topo_v: u64,
}

/// Slots where a horizontal wall collides with nothing.
#[inline]
pub fn wall_collision_clear_h_mask(board: &Board) -> (y: u64)
    ensures
        marks_clear(y, *board, WallOrientation::Horizontal),
{
    let h: u64 = board.horizontal_walls;
    let v: u64 = board.vertical_walls;
    let e: u64 = east1(h);
    let w: u64 = west1(h);
    let any: u64 = any_of5(h, v, e, w, w);
    let y: u64 = !any;
    proof {
        assert forall|r: int, c: int| 0 <= r < 8 && 0 <= c < 8 implies #[trigger] slot(y, r, c)
            == !collides(*board, r, c, WallOrientation::Horizontal) by {
            lemma_slot_ops(any, any, r, c);
            assert(slot(e, r, c) == slot(h, r, c - 1));
            assert(slot(w, r, c) == slot(h, r, c + 1));
        }
    }
    y
}

/// Slots where a vertical wall collides with nothing.
#[inline]
pub fn wall_collision_clear_v_mask(board: &Board) -> (y: u64)
    ensures
        marks_clear(y, *board, WallOrientation::Vertical),
{
    let h: u64 = board.horizontal_walls;
    let v: u64 = board.vertical_walls;
    let up: u64 = rows_up1(v);
    let down: u64 = rows_down1(v);
    let any: u64 = any_of5(v, h, up, down, down);
    let y: u64 = !any;
    proof {
        assert forall|r: int, c: int| 0 <= r < 8 && 0 <= c < 8 implies #[trigger] slot(y, r, c)
            == !collides(*board, r, c, WallOrientation::Vertical) by {
            lemma_slot_ops(any, any, r, c);
            assert(slot(up, r, c) == slot(v, r - 1, c));
            assert(slot(down, r, c) == slot(v, r + 1, c));
        }
    }
    y
}

/// The candidate masks of a board.
#[inline]
pub fn wall_masks(board: &Board) -> (m: WallMasks)
    ensures
        marks_clear(m.l12_h, *board, WallOrientation::Horizontal),
        marks_clear(m.l12_v, *board, WallOrientation::Vertical),
        marks_anchored(m.topo_h, *board, WallOrientation::Horizontal),
        marks_anchored(m.topo_v, *board, WallOrientation::Vertical),
{
    WallMasks {
        l12_h: wall_l12_h_mask(board),
        l12_v: wall_l12_v_mask(board),
        topo_h: topo_h_from(board),
        topo_v: topo_v_from(board),
    }
}

/// Empty slots where a horizontal wall collides with nothing.
pub fn wall_l12_h_mask(board: &Board) -> (y: u64)
    ensures
        marks_clear(y, *board, WallOrientation::Horizontal),
{
    let clear: u64 = wall_collision_clear_h_mask(board);
    let y: u64 = !board.horizontal_walls & clear;
    proof {
        assert forall|r: int, c: int| 0 <= r < 8 && 0 <= c < 8 implies #[trigger] slot(y, r, c)
            == !collides(*board, r, c, WallOrientation::Horizontal) by {
            lemma_slot_ops(!board.horizontal_walls, clear, r, c);
            lemma_slot_ops(board.horizontal_walls, 0, r, c);
            assert(slot(clear, r, c) == !collides(*board, r, c, WallOrientation::Horizontal));
        }
    }
    y
}

/// Empty slots where a vertical wall collides with nothing.
pub fn wall_l12_v_mask(board: &Board) -> (y: u64)
    ensures
        marks_clear(y, *board, WallOrientation::Vertical),
{
    let clear: u64 = wall_collision_clear_v_mask(board);
    let y: u64 = !board.vertical_walls & clear;
    proof {
        assert forall|r: int, c: int| 0 <= r < 8 && 0 <= c < 8 implies #[trigger] slot(y, r, c)
            == !collides(*board, r, c, WallOrientation::Vertical) by {
            lemma_slot_ops(!board.vertical_walls, clear, r, c);
            lemma_slot_ops(board.vertical_walls, 0, r, c);
            assert(slot(clear, r, c) == !collides(*board, r, c, WallOrientation::Vertical));
        }
    }
    y
}

/// Slots where a horizontal wall might close a way off.
#[inline]
pub fn wall_needs_flood_h_mask(board: &Board) -> (y: u64)
    ensures
        marks_anchored(y, *board, WallOrientation::Horizontal),
{
    topo_h_from(board)
}

/// Slots where a vertical wall might close a way off.
#[inline]
pub fn wall_needs_flood_v_mask(board: &Board) -> (y: u64)
    ensures
        marks_anchored(y, *board, WallOrientation::Vertical),
{
    topo_v_from(board)
}

/// Whether a wall at the slot collides with nothing.
#[inline]
pub fn wall_physically_legal_o1(board: &Board, row: u8, col: u8, horizontal: bool) -> (r: bool)
    requires
        row < 8,
        col < 8,
    ensures
        r == !collides(
            *board,
            row as int,
            col as int,
            if horizontal {
                WallOrientation::Horizontal
            } else {
                WallOrientation::Vertical
            },
        ),
{
    let masks: WallMasks = wall_masks(board);
    let mask: u64 = if horizontal {
        masks.l12_h
    } else {
        masks.l12_v
    };
    assert(slot(mask, row as int, col as int) == bit64(mask, row * 8 + col));
    (mask >> (row as u64 * 8 + col as u64)) & 1 == 1
}

/// The slots, as rows and columns, where a wall of the orientation collides with nothing.
pub open spec fn clear_slots(b: Board, orientation: WallOrientation) -> Seq<(u8, u8)> {
    ascending(|i: int| !collides(b, i / 8, i % 8, orientation), 0, 64).map_values(
        |i: int| ((i / 8) as u8, (i % 8) as u8),
    )
}

/// The orientation that a flag names.
pub open spec fn orientation_of(horizontal: bool) -> WallOrientation {
    if horizontal {
        WallOrientation::Horizontal
    } else {
        WallOrientation::Vertical
    }
}

/// A mask by slot lists the slots that it marks.
pub proof fn lemma_marked_slots(m: u64, p: spec_fn(int) -> bool)
    requires
        forall|r: int, c: int|
            0 <= r < 8 && 0 <= c < 8 ==> #[trigger] slot(m, r, c) == p(r * 8 + c),
    ensures
        ascending(|i: int| bit64(m, i), 0, 64) == ascending(p, 0, 64),
{
    let q = |i: int| bit64(m, i);
    assert forall|i: int| 0 <= i < 64 implies #[trigger] q(i) == p(i) by {
        assert(slot(m, i / 8, i % 8) == p(i / 8 * 8 + i % 8));
        assert(i / 8 * 8 + i % 8 == i);
    }
    lemma_ascending_same(q, p, 0, 64);
}

/// Lists the slots where a wall collides with nothing, in slot order.
pub fn generate_wall_candidates_o1(board: &Board, horizontal: bool, out: &mut [(u8, u8)]) -> (n:
    usize)
    requires
        clear_slots(*board, orientation_of(horizontal)).len() <= old(out)@.len(),
    ensures
        n == clear_slots(*board, orientation_of(horizontal)).len(),
        final(out)@ == written(old(out)@, 0, clear_slots(*board, orientation_of(horizontal))),
{
    let bits: u64 = if horizontal {
        wall_l12_h_mask(board)
    } else {
        wall_l12_v_mask(board)
    };
    let ghost o = orientation_of(horizontal);
    let ghost f = |i: int| ((i / 8) as u8, (i % 8) as u8);
    let ghost slots = ascending(|i: int| bit64(bits, i), 0, 64);
    proof {
        lemma_marked_slots(bits, |i: int| !collides(*board, i / 8, i % 8, o));
    }
    let mut n: usize = 0;
    let mut free: u64 = bits;
    proof {
        lemma_empty64(free);
        assert(slots.subrange(0, 0) + slots =~= slots);
        assert(out@ =~= written(old(out)@, 0, slots.subrange(0, 0).map_values(f)));
    }
    while free != 0
        invariant
            f == (|i: int| ((i / 8) as u8, (i % 8) as u8)),
            n <= slots.len() <= old(out)@.len(),
            slots.subrange(0, n as int) + ascending(|i: int| bit64(free, i), 0, 64) == slots,
            out@ == written(old(out)@, 0, slots.subrange(0, n as int).map_values(f)),
        decreases ascending(|i: int| bit64(free, i), 0, 64).len(),
    {
        let (bit, rest) = pop_lowest(free);
        proof {
            lemma_pop_ascending(free, bit as int, rest);
            let tail = ascending(|i: int| bit64(rest, i), 0, 64);
            assert(slots[n as int] == bit);
            assert(slots.subrange(0, n + 1) =~= slots.subrange(0, n as int).push(bit as int));
            assert(slots.subrange(0, n + 1) + tail =~= slots);
        }
        let ghost before = out@;
        out[n] = ((bit / 8) as u8, (bit % 8) as u8);
        proof {
            assert(slots.subrange(0, n + 1).map_values(f) =~= slots.subrange(
                0,
                n as int,
            ).map_values(f).push(f(bit as int)));
            assert(out@ =~= written(old(out)@, 0, slots.subrange(0, n + 1).map_values(f)));
        }
        n = n + 1;
        free = rest;
    }
    proof {
        lemma_empty64(free);
        assert(slots.subrange(0, n as int) =~= slots);
    }
    n
}

// --- pawns ---

/// 0: the opponent is no neighbour; 1 to 4: it stands at row - 1, row + 1,
/// column - 1, column + 1.
pub open spec fn enemy_key(f: Sq, o: Sq) -> int {
    if o == (f.0 - 1, f.1) {
        1
    } else if o == (f.0 + 1, f.1) {
        2
    } else if o == (f.0, f.1 - 1) {
        3
    } else if o == (f.0, f.1 + 1) {
        4
    } else {
        0
    }
}

/// The square numbered `sq`.
pub open spec fn sq_at(sq: int) -> Sq {
    (sq / 9, sq % 9)
}

/// The square of the other side's pawn.
pub open spec fn enemy_of(b: Board, side: int) -> Sq {
    (b.pawns[1 - side].0 as int, b.pawns[1 - side].1 as int)
}

/// Enemy key of the side's opponent as seen from `sq`; 0 where the layer does
/// not exist.
pub fn encode_enemy_key(t: &PawnTables, board: &Board, side: usize, sq: u8) -> (ek: u8)
    requires
        t.right(),
        board.wf(),
        side < 2,
        sq < 81,
    ensures
        ek == enemy_key(sq_at(sq as int), enemy_of(*board, side as int)),
        layer_exists(sq_at(sq as int), ek as int),
{
    let sr: u8 = sq / 9;
    let sc: u8 = sq % 9;
    let (or, oc) = board.pawns[1 - side];
    let dr: i8 = or as i8 - sr as i8;
    let dc: i8 = oc as i8 - sc as i8;
    let ek: u8 = if dr == -1 && dc == 0 {
        1
    } else if dr == 1 && dc == 0 {
        2
    } else if dr == 0 && dc == -1 {
        3
    } else if dr == 0 && dc == 1 {
        4
    } else {
        return 0;
    };
    assert(t.layer_right(sq as int, ek as int));
    if t.layer_valid[sq as usize][ek as usize] == 0 {
        0
    } else {
        ek
    }
}

/// Wall key of a board on a layer: the walls in the layer's slots, read as a
/// combination and mapped.
pub fn pack_wall_key(t: &PawnTables, board: &Board, sq: u8, enemy_key: u8) -> (key: u8)
    requires
        t.right(),
        sq < 81,
        enemy_key < 5,
    ensures
        ({
            let walls = t.slots(sq as int, enemy_key as int);
            let p = combo_of(
                walls,
                board.horizontal_walls,
                board.vertical_walls,
                walls.len() as int,
            );
            key == t.remap@[remap_base(sq as int, enemy_key as int) + p]
        }),
{
    let ghost walls = t.slots(sq as int, enemy_key as int);
    let ghost h = board.horizontal_walls;
    let ghost v = board.vertical_walls;
    assert(t.layer_right(sq as int, enemy_key as int));
    let nw: usize = t.wall_slot_count[sq as usize][enemy_key as usize] as usize;
    let mut phys: u64 = 0;
    let mut i: usize = 0;
    while i < nw
        invariant
            i <= nw <= 12,
            t.right(),
            sq < 81,
            enemy_key < 5,
            nw == walls.len(),
            walls == t.slots(sq as int, enemy_key as int),
            h == board.horizontal_walls,
            v == board.vertical_walls,
            phys == combo_of(walls, h, v, i as int),
        decreases nw - i,
    {
        let r: u8 = t.desc_row[sq as usize][enemy_key as usize][i];
        let c: u8 = t.desc_col[sq as usize][enemy_key as usize][i];
        let horizontal: bool = t.desc_h[sq as usize][enemy_key as usize][i] != 0;
        let orient: WallOrientation = if horizontal {
            WallOrientation::Horizontal
        } else {
            WallOrientation::Vertical
        };
        assert(walls[i as int] == (r, c, horizontal));
        if has_wall(board, r, c, orient) {
            phys = phys | (1u64 << (i as u64));
        }
        i = i + 1;
    }
    proof {
        lemma_combo_of(walls, h, v, nw as int);
        lemma_combo_counts();
    }
    t.wall_remap_byte(sq, enemy_key, phys as usize)
}

/// The legal destinations of a pawn on `sq`, from the tables.
pub fn legal_pawn_move_mask(t: &PawnTables, board: &Board, side: usize, sq: u8) -> (mask: u16)
    requires
        t.right(),
        board.wf(),
        side < 2,
        sq < 81,
    ensures
        is_mask(
            mask,
            board.horizontal_walls,
            board.vertical_walls,
            sq_at(sq as int),
            enemy_of(*board, side as int),
        ),
{
    let ek: u8 = encode_enemy_key(t, board, side, sq);
    proof {
        let f = sq_at(sq as int);
        let o = enemy_of(*board, side as int);
        let h = board.horizontal_walls;
        let v = board.vertical_walls;
        let walls = t.slots(sq as int, ek as int);
        let n = walls.len() as int;
        assert(t.layer_right(sq as int, ek as int));
        let p = combo_of(walls, h, v, n);
        lemma_combo_of(walls, h, v, n);
        lemma_combo_agrees(walls, h, v);
        let key = t.remap@[remap_base(sq as int, ek as int) + p];
        let m = t.legal@[sq as int][ek as int][key as int];
        assert(is_combo_mask(m, walls, p as int as u64, f, ek as int));
        let e = layer_enemy(f, ek as int);
        assert(same_moves(h, v, combo_h(walls, p, n), combo_v(walls, p, n), f, e));
        assert forall|s: int| 0 <= s < 12 implies #[trigger] bit64(m as u64, s) == slot_legal(
            h,
            v,
            f,
            o,
            s,
        ) by {
            assert(slot_legal(h, v, f, e, s) == slot_legal(
                combo_h(walls, p, n),
                combo_v(walls, p, n),
                f,
                e,
                s,
            ));
            if ek == 0 {
                lemma_apart(h, v, f, o, e, s);
            }
        }
    }
    if t.layer_valid[sq as usize][ek as usize] == 0 {
        return 0;
    }
    let wall_key: u8 = pack_wall_key(t, board, sq, ek);
    let max: usize = t.wall_combo_count[sq as usize][ek as usize] as usize;
    if wall_key as usize >= max {
        return 0;
    }
    t.legal[sq as usize][ek as usize][wall_key as usize]
}

/// Writes the moves that a mask picks from a catalog, in catalog order.
fn emit_mask(
    mask: u16,
    catalog: &[u8; 12],
    out: &mut [Move],
    Ghost(h): Ghost<u64>,
    Ghost(v): Ghost<u64>,
    Ghost(f): Ghost<Sq>,
    Ghost(o): Ghost<Sq>,
) -> (n: usize)
    requires
        is_mask(mask, h, v, f, o),
        is_catalog(catalog@, f),
        sq_on_board(f),
        pawn_moves_by_slot(h, v, f, o).len() <= old(out)@.len(),
    ensures
        n == pawn_moves_by_slot(h, v, f, o).len(),
        final(out)@ == written(old(out)@, 0, pawn_moves_by_slot(h, v, f, o)),
{
    let ghost p = |s: int| slot_legal(h, v, f, o, s);
    let ghost g = |s: int| pawn_to(shifted(f, slot_offset(s)));
    let mut bits: u64 = mask as u64;
    let ghost slots = ascending(|i: int| bit64(bits, i), 0, 64);
    proof {
        let q = |i: int| bit64(mask as u64, i);
        assert forall|i: int| 12 <= i < 64 implies !(#[trigger] q(i)) by {
            lemma_mask_high(mask, i);
        }
        lemma_ascending_split(q, 0, 12, 64);
        lemma_ascending_skip(q, 12, 64, 64);
        assert(ascending(q, 0, 64) =~= ascending(q, 0, 12));
        lemma_ascending_same(q, p, 0, 12);
        assert(slots == ascending(p, 0, 12));
        lemma_ascending_members(p, 0, 12);
        assert(slots.subrange(0, 0) + slots =~= slots);
        assert(out@ =~= written(old(out)@, 0, slots.subrange(0, 0).map_values(g)));
        assert(pawn_moves_by_slot(h, v, f, o) =~= slots.map_values(g));
    }
    let mut n: usize = 0;
    while bits != 0
        invariant
            p == (|s: int| slot_legal(h, v, f, o, s)),
            g == (|s: int| pawn_to(shifted(f, slot_offset(s)))),
            slots == ascending(p, 0, 12),
            forall|k: int| 0 <= k < slots.len() ==> 0 <= #[trigger] slots[k] < 12 && p(slots[k]),
            is_catalog(catalog@, f),
            sq_on_board(f),
            n <= slots.len() <= old(out)@.len(),
            slots.subrange(0, n as int) + ascending(|i: int| bit64(bits, i), 0, 64) == slots,
            out@ == written(old(out)@, 0, slots.subrange(0, n as int).map_values(g)),
        decreases ascending(|i: int| bit64(bits, i), 0, 64).len(),
    {
        let (slot, rest) = pop_lowest(bits);
        proof {
            lemma_pop_ascending(bits, slot as int, rest);
            let tail = ascending(|i: int| bit64(rest, i), 0, 64);
            assert((slots.subrange(0, n as int) + (seq![slot as int] + tail))[n as int]
                == slot as int);
            assert(slots[n as int] == slot);
            assert(p(slots[n as int]));
            assert(slots.subrange(0, n + 1) =~= slots.subrange(0, n as int).push(slot as int));
            assert(slots.subrange(0, n + 1) + tail =~= slots);
            assert(catalog@[slot as int] == slot_square(f, slot as int));
        }
        let dest: u8 = catalog[slot as usize];
        out[n] = Move::Pawn { row: dest / 9, col: dest % 9 };
        proof {
            assert(slots.subrange(0, n + 1).map_values(g) =~= slots.subrange(
                0,
                n as int,
            ).map_values(g).push(g(slot as int)));
            assert(out@ =~= written(old(out)@, 0, slots.subrange(0, n + 1).map_values(g)));
        }
        n = n + 1;
        bits = rest;
    }
    proof {
        lemma_empty64(bits);
        assert(slots.subrange(0, n as int) =~= slots);
    }
    n
}

/// The moves of the player on turn in catalog order.
pub open spec fn mover_pawn_moves_by_slot(b: Board) -> Seq<Move> {
    pawn_moves_by_slot(
        b.horizontal_walls,
        b.vertical_walls,
        at(b, b.side_to_move),
        at(b, b.side_to_move.opposite_spec()),
    )
}

/// What the lean generator lists: catalog order next to the opponent, axis
/// order elsewhere.
pub open spec fn mover_pawn_moves_lean(b: Board) -> Seq<Move> {
    if enemy_key(at(b, b.side_to_move), at(b, b.side_to_move.opposite_spec())) == 0 {
        mover_pawn_moves_by_axis(b)
    } else {
        mover_pawn_moves_by_slot(b)
    }
}

/// Pawn moves of the player on turn from the tables.
pub fn generate_pawn_moves_o1(t: &PawnTables, board: &Board, out: &mut [Move]) -> (n: usize)
    requires
        t.right(),
        board.wf(),
        mover_pawn_moves_by_slot(*board).len() <= old(out)@.len(),
    ensures
        n == mover_pawn_moves_by_slot(*board).len(),
        final(out)@ == written(old(out)@, 0, mover_pawn_moves_by_slot(*board)),
{
    let side: usize = board.side_to_move.index();
    let (fr, fc) = board.pawns[side];
    let sq: u8 = square_index(fr, fc);
    assert(sq_at(sq as int) == (fr as int, fc as int));
    let mask: u16 = legal_pawn_move_mask(t, board, side, sq);
    assert(is_catalog(t.catalog@[sq as int]@, (sq as int / 9, sq as int % 9)));
    emit_mask(
        mask,
        &t.catalog[sq as usize],
        out,
        Ghost(board.horizontal_walls),
        Ghost(board.vertical_walls),
        Ghost((fr as int, fc as int)),
        Ghost(enemy_of(*board, side as int)),
    )
}

/// Lean lookup: the tables only next to the opponent, stepwise tests elsewhere.
pub fn generate_pawn_moves_lean_lut(t: &PawnTables, board: &Board, out: &mut [Move]) -> (n: usize)
    requires
        t.right(),
        board.wf(),
        mover_pawn_moves_lean(*board).len() <= old(out)@.len(),
    ensures
        n == mover_pawn_moves_lean(*board).len(),
        final(out)@ == written(old(out)@, 0, mover_pawn_moves_lean(*board)),
{
    let side: usize = board.side_to_move.index();
    let (fr, fc) = board.pawns[side];
    let sq: u8 = square_index(fr, fc);
    assert(sq_at(sq as int) == (fr as int, fc as int));
    let ek: u8 = encode_enemy_key(t, board, side, sq);
    if ek == 0 {
        generate_pawn_moves_shift_slice(board, out)
    } else {
        generate_pawn_moves_o1(t, board, out)
    }
}

/// The legal destinations of a pawn on `sq`, by stepwise tests; no tables.
pub fn pawn_slot_mask(board: &Board, side: usize, sq: u8) -> (mask: u16)
    requires
        board.wf(),
        side < 2,
        sq < 81,
    ensures
        is_mask(
            mask,
            board.horizontal_walls,
            board.vertical_walls,
            sq_at(sq as int),
            enemy_of(*board, side as int),
        ),
{
    let mini: MiniBoard = MiniBoard {
        pawns: [(sq / 9, sq % 9), board.pawns[1 - side]],
        horizontal_walls: board.horizontal_walls,
        vertical_walls: board.vertical_walls,
    };
    let catalog: [u8; 12] = pseudo_catalog(sq / 9, sq % 9);
    mini_mask(&mini, sq, &catalog)
}

/// Pawn moves of the player on turn in catalog order, by stepwise tests.
pub fn generate_pawn_moves_by_slot(board: &Board, out: &mut [Move]) -> (n: usize)
    requires
        board.wf(),
        mover_pawn_moves_by_slot(*board).len() <= old(out)@.len(),
    ensures
        n == mover_pawn_moves_by_slot(*board).len(),
        final(out)@ == written(old(out)@, 0, mover_pawn_moves_by_slot(*board)),
{
    let side: usize = board.side_to_move.index();
    let (fr, fc) = board.pawns[side];
    let sq: u8 = square_index(fr, fc);
    assert(sq_at(sq as int) == (fr as int, fc as int));
    let mask: u16 = pawn_slot_mask(board, side, sq);
    let catalog: [u8; 12] = pseudo_catalog(fr, fc);
    emit_mask(
        mask,
        &catalog,
        out,
        Ghost(board.horizontal_walls),
        Ghost(board.vertical_walls),
        Ghost((fr as int, fc as int)),
        Ghost(enemy_of(*board, side as int)),
    )
}

} // verus!
