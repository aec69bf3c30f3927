//! Twelve theoretical destinations per square, and legal moves as subsets of them.

use vstd::prelude::*;

use crate::movegen::rules::{
    across, lands_on_board, open_from, pawn_legal, pawn_legal_dir, pawn_to, shifted, unit, Sq,
};
use crate::position::board::Move;
use crate::util::bits::{
    ascending, bit64, lemma_ascending_members, lemma_bits64, lemma_ext64, lemma_one64,
};

verus! {

pub const PSEUDO_SLOTS: usize = 12;

pub const OFF_BOARD: u8 = 255;

pub const CARDINAL_OFFSETS: [(i8, i8); 4] = [(1, 0), (-1, 0), (0, 1), (0, -1)];

/// Offset of destination number `s`: 0 to 3 are steps, 4 to 7 jumps, 8 to 11
/// slides.
pub open spec fn slot_offset(s: int) -> Sq {
    if s == 0 {
        (1, 0)
    } else if s == 1 {
        (-1, 0)
    } else if s == 2 {
        (0, 1)
    } else if s == 3 {
        (0, -1)
    } else if s == 4 {
        (2, 0)
    } else if s == 5 {
        (-2, 0)
    } else if s == 6 {
        (0, 2)
    } else if s == 7 {
        (0, -2)
    } else if s == 8 {
        (-1, 1)
    } else if s == 9 {
        (-1, -1)
    } else if s == 10 {
        (1, 1)
    } else {
        (1, -1)
    }
}

pub open spec fn sq_on_board(a: Sq) -> bool {
    0 <= a.0 <= 8 && 0 <= a.1 <= 8
}

/// Square number of destination `s` from `f`, 255 off the board.
pub open spec fn slot_square(f: Sq, s: int) -> int {
    let t = shifted(f, slot_offset(s));
    if sq_on_board(t) {
        t.0 * 9 + t.1
    } else {
        255
    }
}

/// The catalog lists the destinations from `f`.
pub open spec fn is_catalog(cat: Seq<u8>, f: Sq) -> bool {
    cat.len() == 12 && forall|s: int| 0 <= s < 12 ==> #[trigger] cat[s] == slot_square(f, s)
}

/// Destination `s` from `f` is on the board and legal.
pub open spec fn slot_legal(h: u64, v: u64, f: Sq, o: Sq, s: int) -> bool {
    let t = shifted(f, slot_offset(s));
    sq_on_board(t) && pawn_legal(h, v, f, o, pawn_to(t))
}

/// The bits of `m` are the legal destinations.
pub open spec fn is_mask(m: u16, h: u64, v: u64, f: Sq, o: Sq) -> bool {
    &&& m < 4096
    &&& forall|s: int| 0 <= s < 12 ==> #[trigger] bit64(m as u64, s) == slot_legal(h, v, f, o, s)
}

/// All pawn moves in the order of the catalog.
pub open spec fn pawn_moves_by_slot(h: u64, v: u64, f: Sq, o: Sq) -> Seq<Move> {
    ascending(|s: int| slot_legal(h, v, f, o, s), 0, 12).map_values(
        |s: int| pawn_to(shifted(f, slot_offset(s))),
    )
}

/// The catalog holds every legal destination: the moves in catalog order are
/// exactly the legal ones.
pub proof fn lemma_slot_moves_exact(h: u64, v: u64, f: Sq, o: Sq, mv: Move)
    requires
        sq_on_board(f),
    ensures
        pawn_moves_by_slot(h, v, f, o).contains(mv) == pawn_legal(h, v, f, o, mv),
{
    let p = |s: int| slot_legal(h, v, f, o, s);
    let g = |s: int| pawn_to(shifted(f, slot_offset(s)));
    let slots = ascending(p, 0, 12);
    let list = pawn_moves_by_slot(h, v, f, o);
    lemma_ascending_members(p, 0, 12);
    assert(list =~= slots.map_values(g));
    if list.contains(mv) {
        let k = choose|k: int| 0 <= k < list.len() && list[k] == mv;
        assert(p(slots[k]));
        assert(list[k] == g(slots[k]));
    }
    if pawn_legal(h, v, f, o, mv) {
        let d = choose|d: Sq| #[trigger] unit(d) && pawn_legal_dir(h, v, f, o, d, mv);
        let n = shifted(f, d);
        let t = if n != o {
            n
        } else if open_from(h, v, n, d) {
            shifted(n, d)
        } else {
            shifted(
                n,
                choose|a: Sq| #[trigger]
                    across(d, a) && open_from(h, v, n, a) && mv == pawn_to(shifted(n, a)),
            )
        };
        assert(sq_on_board(t) && mv == pawn_to(t));
        let off: Sq = (t.0 - f.0, t.1 - f.1);
        let s: int = if off == (1int, 0int) { 0 } else if off == (-1int, 0int) { 1 } else if off == (0int, 1int) { 2 } else if off == (0int, -1int) { 3 } else if off == (2int, 0int) { 4 } else if off == (-2int, 0int) { 5 } else if off == (0int, 2int) { 6 } else if off == (0int, -2int) { 7 } else if off == (-1int, 1int) { 8 } else if off == (-1int, -1int) { 9 } else if off == (1int, 1int) { 10 } else { 11 };
        assert(slot_offset(s) == off);
        assert(shifted(f, slot_offset(s)) == t);
        assert(p(s));
        assert(slots.contains(s));
        let k = choose|k: int| 0 <= k < slots.len() && slots[k] == s;
        assert(list[k] == mv);
    }
}

/// The catalog order lists no move twice, and at most twelve.
pub proof fn lemma_slot_moves_distinct(h: u64, v: u64, f: Sq, o: Sq)
    requires
        sq_on_board(f),
    ensures
        pawn_moves_by_slot(h, v, f, o).no_duplicates(),
        pawn_moves_by_slot(h, v, f, o).len() <= 12,
        forall|k: int|
            0 <= k < pawn_moves_by_slot(h, v, f, o).len() ==> lands_on_board(
                #[trigger] pawn_moves_by_slot(h, v, f, o)[k],
            ),
{
    let p = |s: int| slot_legal(h, v, f, o, s);
    let g = |s: int| pawn_to(shifted(f, slot_offset(s)));
    let slots = ascending(p, 0, 12);
    let list = pawn_moves_by_slot(h, v, f, o);
    lemma_ascending_members(p, 0, 12);
    assert(list =~= slots.map_values(g));
    assert forall|k: int| 0 <= k < list.len() implies lands_on_board(#[trigger] list[k]) by {
        assert(p(slots[k]));
    }
    assert forall|i: int, j: int|
        0 <= i < list.len() && 0 <= j < list.len() && i != j implies list[i] != list[j] by {
        assert(p(slots[i]) && p(slots[j]));
        assert(slots[i] != slots[j]) by {
            if i < j {
                assert(slots[i] < slots[j]);
            } else {
                assert(slots[j] < slots[i]);
            }
        }
    }
}

proof fn bv_low(m: u64, s: u64, j: u64)
    by (bit_vector)
    requires
        m < 4096,
        s < 12,
        j < 64,
    ensures
        m | (1u64 << s) < 4096,
        j >= 12 ==> !((m >> j) & 1 == 1),
{
}

/// Only the low twelve bits of a mask can be set.
pub proof fn lemma_mask_high(m: u16, j: int)
    requires
        m < 4096,
        12 <= j < 64,
    ensures
        !bit64(m as u64, j),
{
    bv_low(m as u64, 0, j as u64);
}

/// A mask is determined by what is legal.
pub proof fn lemma_mask_unique(m: u16, n: u16)
    requires
        m < 4096,
        n < 4096,
        forall|s: int| 0 <= s < 12 ==> #[trigger] bit64(m as u64, s) == bit64(n as u64, s),
    ensures
        m == n,
{
    let a = m as u64;
    let b = n as u64;
    assert forall|i: int| 0 <= i < 64 implies bit64(a, i) == bit64(b, i) by {
        if i >= 12 {
            lemma_mask_high(m, i);
            lemma_mask_high(n, i);
        } else {
            assert(bit64(m as u64, i) == bit64(n as u64, i));
        }
    }
    lemma_ext64(a, b);
}

fn catalog_square(r: i16, c: i16) -> (sq: u8)
    requires
        -2 <= r <= 10,
        -2 <= c <= 10,
    ensures
        sq == (if 0 <= r <= 8 && 0 <= c <= 8 {
            r * 9 + c
        } else {
            255
        }),
{
    if r >= 0 && r <= 8 && c >= 0 && c <= 8 {
        r as u8 * 9 + c as u8
    } else {
        OFF_BOARD
    }
}

/// The destinations from `(sr, sc)`: 0 to 3 steps, 4 to 7 jumps, 8 to 11 slides.
pub fn pseudo_catalog(sr: u8, sc: u8) -> (cat: [u8; 12])
    requires
        sr < 9,
        sc < 9,
    ensures
        is_catalog(cat@, (sr as int, sc as int)),
{
    let r: i16 = sr as i16;
    let c: i16 = sc as i16;
    [
        catalog_square(r + 1, c),
        catalog_square(r - 1, c),
        catalog_square(r, c + 1),
        catalog_square(r, c - 1),
        catalog_square(r + 2, c),
        catalog_square(r - 2, c),
        catalog_square(r, c + 2),
        catalog_square(r, c - 2),
        catalog_square(r - 1, c + 1),
        catalog_square(r - 1, c - 1),
        catalog_square(r + 1, c + 1),
        catalog_square(r + 1, c - 1),
    ]
}

/// The subset of the catalog that the first `n` destinations make up.
pub fn legal_subset_mask(catalog: &[u8; 12], legal_dests: &[u8], n: usize) -> (mask: u16)
    requires
        n <= legal_dests@.len(),
    ensures
        mask < 4096,
        forall|s: int|
            0 <= s < 12 ==> #[trigger] bit64(mask as u64, s) == (catalog[s] != 255
                && legal_dests@.subrange(0, n as int).contains(catalog[s])),
{
    let mut mask: u64 = 0;
    let mut slot: usize = 0;
    proof {
        assert forall|i: int| 0 <= i < 64 implies !bit64(0, i) by {
            lemma_bits64(0, 0, i);
        }
    }
    while slot < 12
        invariant
            slot <= 12,
            mask < 4096,
            n <= legal_dests@.len(),
            forall|s: int|
                0 <= s < 12 ==> #[trigger] bit64(mask, s) == (s < slot && catalog[s] != 255
                    && legal_dests@.subrange(0, n as int).contains(catalog[s])),
        decreases 12 - slot,
    {
        let sq: u8 = catalog[slot];
        if sq != OFF_BOARD && holds(legal_dests, n, sq) {
            let one: u64 = 1u64 << (slot as u64);
            proof {
                bv_low(mask, slot as u64, 0);
                assert forall|s: int| 0 <= s < 12 implies #[trigger] bit64(mask | one, s) == (
                bit64(mask, s) || s == slot) by {
                    lemma_bits64(mask, one, s);
                    lemma_one64(slot as int, s);
                }
            }
            mask = mask | one;
        }
        slot = slot + 1;
    }
    assert(mask as u16 as u64 == mask);
    mask as u16
}

/// Whether one of the first `n` entries is `x`.
fn holds(list: &[u8], n: usize, x: u8) -> (r: bool)
    requires
        n <= list@.len(),
    ensures
        r == list@.subrange(0, n as int).contains(x),
{
    let mut i: usize = 0;
    while i < n
        invariant
            i <= n <= list@.len(),
            forall|k: int| 0 <= k < i ==> list@[k] != x,
        decreases n - i,
    {
        if list[i] == x {
            assert(list@.subrange(0, n as int)[i as int] == x);
            return true;
        }
        i = i + 1;
    }
    false
}

} // verus!
