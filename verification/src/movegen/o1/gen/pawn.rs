//! Two-layer pawn tables: `[square][enemy key][wall key]` to a subset of the
//! twelve theoretical destinations.
//!
//! The enemy key says where the opponent stands next to the mover, if it does.
//! The wall key stands for a set of moves: the wall slots that matter on this
//! layer are read into a combination number, which is mapped to a key.

use vstd::prelude::*;

use crate::movegen::o1::gen::geometry::{
    lemma_dests_legal, move_square, pawn_move_dests, set_wall, MiniBoard,
};
use crate::movegen::o1::gen::pseudo_moves::{
    is_catalog, is_mask, legal_subset_mask, lemma_mask_unique, pseudo_catalog, slot_legal,
    slot_offset, slot_square, sq_on_board,
};
use crate::movegen::rules::{
    across, open_from, pawn_legal, pawn_legal_dir, pawn_moves, pawn_to, shifted, unit, Sq,
};
use crate::util::bits::{bit64, lemma_bits64, lemma_one64};
use crate::util::grid::{lemma_with_slot, slot, with_slot};

verus! {

pub const ENEMY_LAYERS: usize = 5;

pub const WALL_KEYS: usize = 256;

/// Wall slots that one layer can depend on.
pub const MAX_WALL_SLOTS: usize = 12;

pub const PHYS_WALL_COMBOS: usize = 4096;

/// A wall slot: row, column, horizontal.
pub type WallSlot = (u8, u8, bool);

/// Whether the wall words hold the wall.
pub open spec fn slot_on(h: u64, v: u64, w: WallSlot) -> bool {
    if w.2 {
        slot(h, w.0 as int, w.1 as int)
    } else {
        slot(v, w.0 as int, w.1 as int)
    }
}

/// Position in the order of slots: horizontal ones first, then by row and column.
pub open spec fn slot_rank(w: WallSlot) -> int {
    (if w.2 {
        0int
    } else {
        64int
    }) + w.0 * 8 + w.1
}

/// Slots of the grid in increasing order, none twice.
pub open spec fn slots_ok(walls: Seq<WallSlot>) -> bool {
    &&& forall|i: int| 0 <= i < walls.len() ==> (#[trigger] walls[i]).0 < 8 && walls[i].1 < 8
    &&& forall|i: int, j: int|
        0 <= i < j < walls.len() ==> slot_rank(#[trigger] walls[i]) < slot_rank(#[trigger] walls[j])
}

/// Two pairs of wall words agree on the slots.
pub open spec fn agree(walls: Seq<WallSlot>, h: u64, v: u64, h2: u64, v2: u64) -> bool {
    forall|i: int|
        0 <= i < walls.len() ==> slot_on(h, v, #[trigger] walls[i]) == slot_on(h2, v2, walls[i])
}

/// The same destinations are legal under two pairs of wall words.
pub open spec fn same_moves(h: u64, v: u64, h2: u64, v2: u64, f: Sq, o: Sq) -> bool {
    forall|s: int|
        0 <= s < 12 ==> #[trigger] slot_legal(h, v, f, o, s) == slot_legal(h2, v2, f, o, s)
}

/// The slots decide which destinations are legal.
pub open spec fn decides(walls: Seq<WallSlot>, f: Sq, o: Sq) -> bool {
    forall|h: u64, v: u64, h2: u64, v2: u64| #[trigger]
        agree(walls, h, v, h2, v2) ==> same_moves(h, v, h2, v2, f, o)
}

/// Two pairs of wall words differ at most in slot `w`.
pub open spec fn differ_only(w: WallSlot, h: u64, v: u64, h2: u64, v2: u64) -> bool {
    forall|x: WallSlot|
        x != w && x.0 < 8 && x.1 < 8 ==> #[trigger] slot_on(h, v, x) == slot_on(h2, v2, x)
}

/// The wall in slot `w` can change which destinations are legal.
pub open spec fn matters(w: WallSlot, f: Sq, o: Sq) -> bool {
    &&& w.0 < 8
    &&& w.1 < 8
    &&& exists|h: u64, v: u64, h2: u64, v2: u64| #[trigger]
        differ_only(w, h, v, h2, v2) && !same_moves(h, v, h2, v2, f, o)
}

/// Offset of the opponent on layers 1 to 4.
pub open spec fn enemy_offset_spec(enemy_key: int) -> Sq {
    if enemy_key == 1 {
        (-1, 0)
    } else if enemy_key == 2 {
        (1, 0)
    } else if enemy_key == 3 {
        (0, -1)
    } else {
        (0, 1)
    }
}

/// Where the opponent stands on a layer; far away on layer 0.
pub open spec fn layer_enemy(f: Sq, enemy_key: int) -> Sq {
    if enemy_key == 0 {
        (-9, -9)
    } else {
        shifted(f, enemy_offset_spec(enemy_key))
    }
}

/// The layer exists: its opponent stands on the board.
pub open spec fn layer_exists(f: Sq, enemy_key: int) -> bool {
    enemy_key == 0 || (1 <= enemy_key <= 4 && sq_on_board(layer_enemy(f, enemy_key)))
}

/// `o` is not a neighbour of `f`.
pub open spec fn apart(f: Sq, o: Sq) -> bool {
    forall|d: Sq| #[trigger] unit(d) ==> shifted(f, d) != o
}

/// Where an opponent that is no neighbour stands does not matter.
pub proof fn lemma_apart(h: u64, v: u64, f: Sq, o: Sq, o2: Sq, s: int)
    requires
        apart(f, o),
        apart(f, o2),
    ensures
        slot_legal(h, v, f, o, s) == slot_legal(h, v, f, o2, s),
{
    let mv = pawn_to(shifted(f, slot_offset(s)));
    assert forall|d: Sq| #[trigger] unit(d) implies pawn_legal_dir(h, v, f, o, d, mv)
        == pawn_legal_dir(h, v, f, o2, d, mv) by {}
    if pawn_legal(h, v, f, o, mv) {
        let d = choose|d: Sq| #[trigger] unit(d) && pawn_legal_dir(h, v, f, o, d, mv);
        assert(unit(d) && pawn_legal_dir(h, v, f, o2, d, mv));
    }
    if pawn_legal(h, v, f, o2, mv) {
        let d = choose|d: Sq| #[trigger] unit(d) && pawn_legal_dir(h, v, f, o2, d, mv);
        assert(unit(d) && pawn_legal_dir(h, v, f, o, d, mv));
    }
}

// --- wall combinations ---

/// Horizontal wall word of combination `part` of the first `k` slots.
pub open spec fn combo_h(walls: Seq<WallSlot>, part: u64, k: int) -> u64
    decreases k,
{
    if k <= 0 {
        0
    } else if walls[k - 1].2 && bit64(part, k - 1) {
        with_slot(combo_h(walls, part, k - 1), walls[k - 1].0 as int, walls[k - 1].1 as int, true)
    } else {
        combo_h(walls, part, k - 1)
    }
}

/// Vertical wall word of combination `part` of the first `k` slots.
pub open spec fn combo_v(walls: Seq<WallSlot>, part: u64, k: int) -> u64
    decreases k,
{
    if k <= 0 {
        0
    } else if !walls[k - 1].2 && bit64(part, k - 1) {
        with_slot(combo_v(walls, part, k - 1), walls[k - 1].0 as int, walls[k - 1].1 as int, true)
    } else {
        combo_v(walls, part, k - 1)
    }
}

/// Slot number `i` of `walls` is `x` and the combination holds it.
pub open spec fn picks(walls: Seq<WallSlot>, part: u64, i: int, x: WallSlot) -> bool {
    walls[i] == x && bit64(part, i)
}

/// A combination holds the walls that it picks and no other.
proof fn lemma_combo(walls: Seq<WallSlot>, part: u64, k: int, x: WallSlot)
    requires
        slots_ok(walls),
        0 <= k <= walls.len(),
        k <= 64,
        x.0 < 8,
        x.1 < 8,
    ensures
        slot_on(combo_h(walls, part, k), combo_v(walls, part, k), x) == exists|i: int|
            0 <= i < k && #[trigger] picks(walls, part, i, x),
    decreases k,
{
    if k == 0 {
        lemma_bits64(0, 0, x.0 * 8 + x.1);
    } else {
        lemma_combo(walls, part, k - 1, x);
        let w = walls[k - 1];
        assert(w.0 < 8 && w.1 < 8);
        lemma_with_slot(
            combo_h(walls, part, k - 1),
            w.0 as int,
            w.1 as int,
            true,
            x.0 as int,
            x.1 as int,
        );
        lemma_with_slot(
            combo_v(walls, part, k - 1),
            w.0 as int,
            w.1 as int,
            true,
            x.0 as int,
            x.1 as int,
        );
        if picks(walls, part, k - 1, x) {
        } else if exists|i: int| 0 <= i < k && #[trigger] picks(walls, part, i, x) {
            let i = choose|i: int| 0 <= i < k && #[trigger] picks(walls, part, i, x);
            assert(0 <= i < k - 1 && picks(walls, part, i, x));
        }
    }
}

/// The combination shows its bits in its own slots.
pub proof fn lemma_combo_own(walls: Seq<WallSlot>, part: u64, i: int)
    requires
        slots_ok(walls),
        walls.len() <= 64,
        0 <= i < walls.len(),
    ensures
        slot_on(
            combo_h(walls, part, walls.len() as int),
            combo_v(walls, part, walls.len() as int),
            walls[i],
        ) == bit64(part, i),
{
    let n = walls.len() as int;
    let x = walls[i];
    lemma_combo(walls, part, n, x);
    if bit64(part, i) {
        assert(picks(walls, part, i, x));
    } else if exists|j: int| 0 <= j < n && #[trigger] picks(walls, part, j, x) {
        let j = choose|j: int| 0 <= j < n && #[trigger] picks(walls, part, j, x);
        if j < i {
            assert(slot_rank(walls[j]) < slot_rank(walls[i]));
        } else if i < j {
            assert(slot_rank(walls[i]) < slot_rank(walls[j]));
        }
    }
}

/// The combination number of wall words: bit `i` is slot `i`.
pub open spec fn combo_of(walls: Seq<WallSlot>, h: u64, v: u64, k: int) -> u64
    decreases k,
{
    if k <= 0 {
        0
    } else if slot_on(h, v, walls[k - 1]) {
        combo_of(walls, h, v, k - 1) | (1u64 << ((k - 1) as u64))
    } else {
        combo_of(walls, h, v, k - 1)
    }
}

proof fn bv_next(m: u64, k: u64)
    by (bit_vector)
    requires
        k < 32,
        m < (1u64 << k),
    ensures
        m | (1u64 << k) < (1u64 << ((k + 1) as u64)),
        m < (1u64 << ((k + 1) as u64)),
        (1u64 << ((k + 1) as u64)) == 2 * (1u64 << k),
{
}

/// Combinations of up to twelve slots.
pub proof fn lemma_combo_counts()
    by (bit_vector)
    ensures
        (1u64 << 0) == 1,
        forall|k: u64| k <= 12 ==> 1 <= #[trigger] (1u64 << k) <= 4096,
{
}

/// Bits and size of a combination number.
pub proof fn lemma_combo_of(walls: Seq<WallSlot>, h: u64, v: u64, k: int)
    requires
        0 <= k <= 12,
        k <= walls.len(),
    ensures
        combo_of(walls, h, v, k) < (1u64 << (k as u64)),
        forall|i: int|
            0 <= i < 64 ==> #[trigger] bit64(combo_of(walls, h, v, k), i) == (i < k && slot_on(
                h,
                v,
                walls[i],
            )),
    decreases k,
{
    lemma_combo_counts();
    if k > 0 {
        lemma_combo_of(walls, h, v, k - 1);
        let m = combo_of(walls, h, v, k - 1);
        let b = 1u64 << ((k - 1) as u64);
        bv_next(m, (k - 1) as u64);
        assert forall|i: int| 0 <= i < 64 implies #[trigger] bit64(combo_of(walls, h, v, k), i) == (i
            < k && slot_on(h, v, walls[i])) by {
            lemma_bits64(m, b, i);
            lemma_one64(k - 1, i);
            assert(bit64(m, i) == (i < k - 1 && slot_on(h, v, walls[i])));
        }
    } else {
        assert forall|i: int| 0 <= i < 64 implies !(#[trigger] bit64(0, i)) by {
            lemma_bits64(0, 0, i);
        }
    }
}

/// Wall words agree with their own combination.
pub proof fn lemma_combo_agrees(walls: Seq<WallSlot>, h: u64, v: u64)
    requires
        slots_ok(walls),
        walls.len() <= 12,
    ensures
        ({
            let n = walls.len() as int;
            let p = combo_of(walls, h, v, n);
            agree(walls, h, v, combo_h(walls, p, n), combo_v(walls, p, n))
        }),
{
    let n = walls.len() as int;
    let p = combo_of(walls, h, v, n);
    lemma_combo_of(walls, h, v, n);
    assert forall|i: int| 0 <= i < walls.len() implies slot_on(h, v, #[trigger] walls[i])
        == slot_on(combo_h(walls, p, n), combo_v(walls, p, n), walls[i]) by {
        lemma_combo_own(walls, p, i);
        assert(bit64(p, i) == slot_on(h, v, walls[i]));
    }
}

// --- discovery ---

/// Offset of the opponent on a layer: none, row - 1, row + 1, column - 1, column + 1.
pub fn cardinal_offset(enemy_key: u8) -> (r: Option<(i8, i8)>)
    ensures
        r == (if enemy_key == 0 || enemy_key > 4 {
            None::<(i8, i8)>
        } else if enemy_key == 1 {
            Some((-1i8, 0i8))
        } else if enemy_key == 2 {
            Some((1i8, 0i8))
        } else if enemy_key == 3 {
            Some((0i8, -1i8))
        } else {
            Some((0i8, 1i8))
        }),
{
    match enemy_key {
        1 => Some((-1, 0)),
        2 => Some((1, 0)),
        3 => Some((0, -1)),
        4 => Some((0, 1)),
        _ => None,
    }
}

/// Whether the layer's opponent would stand on the board; false on layer 0.
pub fn cardinal_valid(sr: u8, sc: u8, enemy_key: u8) -> (r: bool)
    ensures
        r == (1 <= enemy_key <= 4 && sq_on_board(
            shifted((sr as int, sc as int), enemy_offset_spec(enemy_key as int)),
        )),
{
    match cardinal_offset(enemy_key) {
        Some((dr, dc)) => {
            let nr: i16 = sr as i16 + dr as i16;
            let nc: i16 = sc as i16 + dc as i16;
            nr >= 0 && nr <= 8 && nc >= 0 && nc <= 8
        },
        None => false,
    }
}

/// A square that is no neighbour of `(sr, sc)`.
fn far_opponent(sr: u8, sc: u8) -> (o: (u8, u8))
    requires
        sr < 9,
        sc < 9,
    ensures
        apart((sr as int, sc as int), (o.0 as int, o.1 as int)),
        o.0 < 9,
        o.1 < 9,
{
    // One of the middle squares of the two far rows is never near.
    if sr < 5 {
        (8, 4)
    } else {
        (0, 4)
    }
}

/// The slot is in the list, if it is a slot of the grid.
pub open spec fn has_slot(walls: Seq<WallSlot>, r: int, c: int, horizontal: bool) -> bool {
    0 <= r < 8 && 0 <= c < 8 ==> walls.contains((r as u8, c as u8, horizontal))
}

/// First of the two slots that the step from `(r, c)` by `d` looks at.
pub open spec fn step_slot_a(r: int, c: int, d: Sq) -> (int, int, bool) {
    if d == (1int, 0int) {
        (r, c, true)
    } else if d == (-1int, 0int) {
        (r - 1, c, true)
    } else if d == (0int, 1int) {
        (r, c, false)
    } else {
        (r, c - 1, false)
    }
}

/// Second of the two slots that the step from `(r, c)` by `d` looks at.
pub open spec fn step_slot_b(r: int, c: int, d: Sq) -> (int, int, bool) {
    if d == (1int, 0int) {
        (r, c - 1, true)
    } else if d == (-1int, 0int) {
        (r - 1, c - 1, true)
    } else if d == (0int, 1int) {
        (r - 1, c, false)
    } else {
        (r - 1, c - 1, false)
    }
}

/// The list holds the slots that the step looks at, if it stays on the board.
pub open spec fn covers(walls: Seq<WallSlot>, a: Sq, d: Sq) -> bool {
    let x = step_slot_a(a.0, a.1, d);
    let y = step_slot_b(a.0, a.1, d);
    sq_on_board(shifted(a, d)) ==> has_slot(walls, x.0, x.1, x.2) && has_slot(walls, y.0, y.1, y.2)
}

/// A covered step is open or closed alike under words that agree.
proof fn lemma_covered(walls: Seq<WallSlot>, h: u64, v: u64, h2: u64, v2: u64, a: Sq, d: Sq)
    requires
        covers(walls, a, d),
        agree(walls, h, v, h2, v2),
        unit(d),
    ensures
        open_from(h, v, a, d) == open_from(h2, v2, a, d),
{
    if sq_on_board(shifted(a, d)) {
        let x = step_slot_a(a.0, a.1, d);
        let y = step_slot_b(a.0, a.1, d);
        lemma_listed(walls, h, v, h2, v2, x.0, x.1, x.2);
        lemma_listed(walls, h, v, h2, v2, y.0, y.1, y.2);
    }
}

proof fn lemma_listed(
    walls: Seq<WallSlot>,
    h: u64,
    v: u64,
    h2: u64,
    v2: u64,
    r: int,
    c: int,
    horizontal: bool,
)
    requires
        has_slot(walls, r, c, horizontal),
        agree(walls, h, v, h2, v2),
    ensures
        horizontal ==> slot(h, r, c) == slot(h2, r, c),
        !horizontal ==> slot(v, r, c) == slot(v2, r, c),
{
    if 0 <= r < 8 && 0 <= c < 8 {
        let w: WallSlot = (r as u8, c as u8, horizontal);
        let i = choose|i: int| 0 <= i < walls.len() && walls[i] == w;
        assert(slot_on(h, v, walls[i]) == slot_on(h2, v2, walls[i]));
    }
}

/// All that pawn moves of a layer look at is covered.
pub open spec fn covers_layer(walls: Seq<WallSlot>, f: Sq, enemy_key: int) -> bool {
    let o = layer_enemy(f, enemy_key);
    let e = enemy_offset_spec(enemy_key);
    &&& forall|d: Sq| #[trigger] unit(d) ==> covers(walls, f, d)
    &&& enemy_key != 0 ==> covers(walls, o, e) && forall|a: Sq| #[trigger]
        across(e, a) ==> covers(walls, o, a)
}

/// Covering a layer decides it.
proof fn lemma_covers_decides(walls: Seq<WallSlot>, f: Sq, enemy_key: int)
    requires
        covers_layer(walls, f, enemy_key),
        0 <= enemy_key <= 4,
        sq_on_board(f),
    ensures
        decides(walls, f, layer_enemy(f, enemy_key)),
{
    let o = layer_enemy(f, enemy_key);
    assert forall|h: u64, v: u64, h2: u64, v2: u64| #[trigger] agree(walls, h, v, h2, v2) implies
        same_moves(h, v, h2, v2, f, o) by {
        assert forall|s: int| 0 <= s < 12 implies #[trigger] slot_legal(h, v, f, o, s)
            == slot_legal(h2, v2, f, o, s) by {
            let mv = pawn_to(shifted(f, slot_offset(s)));
            lemma_legal_one_way(walls, h, v, h2, v2, f, enemy_key, mv);
            lemma_legal_one_way(walls, h2, v2, h, v, f, enemy_key, mv);
        }
    }
}

proof fn lemma_legal_one_way(
    walls: Seq<WallSlot>,
    h: u64,
    v: u64,
    h2: u64,
    v2: u64,
    f: Sq,
    enemy_key: int,
    mv: crate::position::board::Move,
)
    requires
        covers_layer(walls, f, enemy_key),
        0 <= enemy_key <= 4,
        sq_on_board(f),
        agree(walls, h, v, h2, v2) || agree(walls, h2, v2, h, v),
    ensures
        pawn_legal(h, v, f, layer_enemy(f, enemy_key), mv) ==> pawn_legal(
            h2,
            v2,
            f,
            layer_enemy(f, enemy_key),
            mv,
        ),
{
    let o = layer_enemy(f, enemy_key);
    let e = enemy_offset_spec(enemy_key);
    assert(agree(walls, h, v, h2, v2));
    if pawn_legal(h, v, f, o, mv) {
        let d = choose|d: Sq| #[trigger] unit(d) && pawn_legal_dir(h, v, f, o, d, mv);
        lemma_covered(walls, h, v, h2, v2, f, d);
        if shifted(f, d) == o {
            assert(d == e && enemy_key != 0);
            lemma_covered(walls, h, v, h2, v2, o, e);
            if !open_from(h, v, o, e) {
                let a = choose|a: Sq| #[trigger]
                    across(d, a) && open_from(h, v, o, a) && mv == pawn_to(shifted(o, a));
                lemma_covered(walls, h, v, h2, v2, o, a);
                assert(across(d, a) && open_from(h2, v2, o, a) && mv == pawn_to(shifted(o, a)));
            }
        }
        assert(unit(d) && pawn_legal_dir(h2, v2, f, o, d, mv));
    }
}

/// Inserts a slot in order, unless it is outside the grid or already there.
fn insert_slot(set: &mut Vec<WallSlot>, r: i16, c: i16, horizontal: bool)
    requires
        slots_ok(old(set)@),
        -2 <= r <= 10,
        -2 <= c <= 10,
        old(set)@.len() < 100,
    ensures
        slots_ok(final(set)@),
        has_slot(final(set)@, r as int, c as int, horizontal),
        forall|w: WallSlot| old(set)@.contains(w) ==> #[trigger] final(set)@.contains(w),
        final(set)@.len() <= old(set)@.len() + 1,
        !(0 <= r < 8 && 0 <= c < 8) || old(set)@.contains((r as u8, c as u8, horizontal))
            ==> final(set)@ == old(set)@,
{
    if r < 0 || r > 7 || c < 0 || c > 7 {
        return;
    }
    let w: WallSlot = (r as u8, c as u8, horizontal);
    let key: u32 = (if horizontal {
        0u32
    } else {
        64u32
    }) + r as u32 * 8 + c as u32;
    let mut i: usize = 0;
    while i < set.len()
        invariant
            i <= set@.len(),
            set@ == old(set)@,
            slots_ok(set@),
            key == slot_rank(w),
            w == (r as u8, c as u8, horizontal),
            0 <= r < 8,
            0 <= c < 8,
            forall|k: int| 0 <= k < i ==> slot_rank(#[trigger] set@[k]) < key,
        ensures
            i <= set@.len(),
            forall|k: int| 0 <= k < i ==> slot_rank(#[trigger] set@[k]) < key,
            i < set@.len() ==> slot_rank(set@[i as int]) > key,
            set@ == old(set)@,
        decreases set@.len() - i,
    {
        let x: WallSlot = set[i];
        let rank: u32 = (if x.2 {
            0u32
        } else {
            64u32
        }) + x.0 as u32 * 8 + x.1 as u32;
        if rank == key {
            assert(x == w) by {
                assert(set@[i as int].0 < 8 && set@[i as int].1 < 8);
            }
            assert(set@[i as int] == w);
            return;
        }
        if rank > key {
            break;
        }
        i = i + 1;
    }
    proof {
        assert forall|k: int| i <= k < set@.len() implies slot_rank(#[trigger] set@[k]) > key by {
            if k > i {
                assert(slot_rank(set@[i as int]) < slot_rank(set@[k]));
            }
        }
        if old(set)@.contains(w) {
            let k = choose|k: int| 0 <= k < set@.len() && set@[k] == w;
            assert(slot_rank(set@[k]) == key);
        }
    }
    set.insert(i, w);
    proof {
        assert(set@[i as int] == w);
        assert forall|x: WallSlot| old(set)@.contains(x) implies #[trigger] set@.contains(x) by {
            let k = choose|k: int| 0 <= k < old(set)@.len() && old(set)@[k] == x;
            if k < i {
                assert(set@[k] == x);
            } else {
                assert(set@[k + 1] == x);
            }
        }
    }
}

/// Inserts the slots that a step looks at, if the step stays on the board.
fn push_step_walls(row: u8, col: u8, dr: i8, dc: i8, out: &mut Vec<WallSlot>)
    requires
        slots_ok(old(out)@),
        row < 9,
        col < 9,
        unit((dr as int, dc as int)),
        old(out)@.len() < 90,
    ensures
        slots_ok(final(out)@),
        covers(final(out)@, (row as int, col as int), (dr as int, dc as int)),
        forall|w: WallSlot| old(out)@.contains(w) ==> #[trigger] final(out)@.contains(w),
        final(out)@.len() <= old(out)@.len() + 2,
        ({
            let y = step_slot_b(row as int, col as int, (dr as int, dc as int));
            let x = step_slot_a(row as int, col as int, (dr as int, dc as int));
            has_slot(old(out)@, y.0, y.1, y.2) || has_slot(old(out)@, x.0, x.1, x.2)
                ==> final(out)@.len() <= old(out)@.len() + 1
        }),
{
    let nr: i16 = row as i16 + dr as i16;
    let nc: i16 = col as i16 + dc as i16;
    if nr < 0 || nr > 8 || nc < 0 || nc > 8 {
        return;
    }
    let r: i16 = row as i16;
    let c: i16 = col as i16;
    if dr == 1 {
        insert_slot(out, r, c, true);
        insert_slot(out, r, c - 1, true);
    } else if dr == -1 {
        insert_slot(out, r - 1, c, true);
        insert_slot(out, r - 1, c - 1, true);
    } else if dc == 1 {
        insert_slot(out, r, c, false);
        insert_slot(out, r - 1, c, false);
    } else {
        insert_slot(out, r, c - 1, false);
        insert_slot(out, r - 1, c - 1, false);
    }
}

/// Covering is kept when slots are added.
proof fn lemma_covers_more(walls: Seq<WallSlot>, more: Seq<WallSlot>, a: Sq, d: Sq)
    requires
        covers(walls, a, d),
        forall|w: WallSlot| walls.contains(w) ==> #[trigger] more.contains(w),
    ensures
        covers(more, a, d),
{
}

/// The slots that steps, jump and slides of a layer look at.
fn wall_candidates(sr: u8, sc: u8, enemy_key: u8) -> (set: Vec<WallSlot>)
    requires
        sr < 9,
        sc < 9,
        enemy_key <= 4,
        layer_exists((sr as int, sc as int), enemy_key as int),
    ensures
        slots_ok(set@),
        set@.len() <= 12,
        covers_layer(set@, (sr as int, sc as int), enemy_key as int),
{
    let ghost f: Sq = (sr as int, sc as int);
    let mut set: Vec<WallSlot> = Vec::new();
    push_step_walls(sr, sc, 1, 0, &mut set);
    let ghost s1 = set@;
    push_step_walls(sr, sc, -1, 0, &mut set);
    let ghost s2 = set@;
    push_step_walls(sr, sc, 0, 1, &mut set);
    let ghost s3 = set@;
    push_step_walls(sr, sc, 0, -1, &mut set);
    let ghost s4 = set@;
    proof {
        lemma_covers_more(s1, s2, f, (1, 0));
        lemma_covers_more(s2, s3, f, (1, 0));
        lemma_covers_more(s3, s4, f, (1, 0));
        lemma_covers_more(s2, s3, f, (-1, 0));
        lemma_covers_more(s3, s4, f, (-1, 0));
        lemma_covers_more(s3, s4, f, (0, 1));
        assert forall|d: Sq| #[trigger] unit(d) implies covers(s4, f, d) by {}
    }
    match cardinal_offset(enemy_key) {
        Some((dr, dc)) => {
            push_enemy_walls(sr, sc, dr, dc, &mut set);
            proof {
                assert forall|d: Sq| #[trigger] unit(d) implies covers(set@, f, d) by {
                    lemma_covers_more(s4, set@, f, d);
                }
            }
        },
        None => {},
    }
    set
}

/// Inserts the slots that the jump over a neighbouring opponent and the slides
/// beside it look at. One slot of each slide is one that the mover's own step
/// sideways looks at, so at most four are new.
fn push_enemy_walls(sr: u8, sc: u8, dr: i8, dc: i8, set: &mut Vec<WallSlot>)
    requires
        slots_ok(old(set)@),
        old(set)@.len() <= 8,
        sr < 9,
        sc < 9,
        unit((dr as int, dc as int)),
        sq_on_board(shifted((sr as int, sc as int), (dr as int, dc as int))),
        forall|d: Sq| #[trigger] unit(d) ==> covers(old(set)@, (sr as int, sc as int), d),
    ensures
        slots_ok(final(set)@),
        final(set)@.len() <= 12,
        forall|w: WallSlot| old(set)@.contains(w) ==> #[trigger] final(set)@.contains(w),
        ({
            let o = shifted((sr as int, sc as int), (dr as int, dc as int));
            covers(final(set)@, o, (dr as int, dc as int)) && forall|a: Sq| #[trigger]
                across((dr as int, dc as int), a) ==> covers(final(set)@, o, a)
        }),
{
    let or: u8 = (sr as i8 + dr) as u8;
    let oc: u8 = (sc as i8 + dc) as u8;
    let ghost f: Sq = (sr as int, sc as int);
    let ghost o: Sq = (or as int, oc as int);
    let ghost e: Sq = (dr as int, dc as int);
    let ghost s4 = set@;
    push_step_walls(or, oc, dr, dc, set);
    let ghost s5 = set@;
    if dr != 0 {
        proof {
            assert(unit((0int, 1int)) && unit((0int, -1int)));
            lemma_covers_more(s4, s5, f, (0, 1));
            lemma_covers_more(s4, s5, f, (0, -1));
        }
        push_step_walls(or, oc, 0, 1, set);
        let ghost s6 = set@;
        proof {
            lemma_covers_more(s5, s6, f, (0, -1));
        }
        push_step_walls(or, oc, 0, -1, set);
        proof {
            lemma_covers_more(s5, s6, o, e);
            lemma_covers_more(s6, set@, o, e);
            lemma_covers_more(s6, set@, o, (0, 1));
            assert forall|a: Sq| #[trigger] across(e, a) implies covers(set@, o, a) by {
                assert(a == (0int, 1int) || a == (0int, -1int));
            }
        }
    } else {
        proof {
            assert(unit((1int, 0int)) && unit((-1int, 0int)));
            lemma_covers_more(s4, s5, f, (1, 0));
            lemma_covers_more(s4, s5, f, (-1, 0));
        }
        push_step_walls(or, oc, 1, 0, set);
        let ghost s6 = set@;
        proof {
            lemma_covers_more(s5, s6, f, (-1, 0));
        }
        push_step_walls(or, oc, -1, 0, set);
        proof {
            lemma_covers_more(s5, s6, o, e);
            lemma_covers_more(s6, set@, o, e);
            lemma_covers_more(s6, set@, o, (1, 0));
            assert forall|a: Sq| #[trigger] across(e, a) implies covers(set@, o, a) by {
                assert(a == (1int, 0int) || a == (-1int, 0int));
            }
        }
    }
}

/// The mover on `(sr, sc)`, the opponent where the layer says, and the walls
/// of one combination.
fn board_for_layer(sr: u8, sc: u8, enemy_key: u8, walls: &Vec<WallSlot>, part: u64) -> (b: MiniBoard)
    requires
        sr < 9,
        sc < 9,
        enemy_key <= 4,
        layer_exists((sr as int, sc as int), enemy_key as int),
        slots_ok(walls@),
        walls@.len() <= 12,
    ensures
        b.at(0) == (sr as int, sc as int),
        enemy_key == 0 ==> apart((sr as int, sc as int), b.at(1)),
        enemy_key != 0 ==> b.at(1) == layer_enemy((sr as int, sc as int), enemy_key as int),
        b.horizontal_walls == combo_h(walls@, part, walls@.len() as int),
        b.vertical_walls == combo_v(walls@, part, walls@.len() as int),
{
    let mut b: MiniBoard = MiniBoard::default();
    let mut i: usize = 0;
    while i < walls.len()
        invariant
            i <= walls@.len() <= 12,
            slots_ok(walls@),
            b.horizontal_walls == combo_h(walls@, part, i as int),
            b.vertical_walls == combo_v(walls@, part, i as int),
        decreases walls@.len() - i,
    {
        let w: WallSlot = walls[i];
        if (part >> (i as u64)) & 1 == 1 {
            set_wall(&mut b, w.0, w.1, w.2);
        }
        i = i + 1;
    }
    let o: (u8, u8) = match cardinal_offset(enemy_key) {
        None => far_opponent(sr, sc),
        Some((dr, dc)) => ((sr as i8 + dr) as u8, (sc as i8 + dc) as u8),
    };
    b.pawns = [(sr, sc), o];
    b
}

/// The legal destinations under one combination of walls.
fn mask_for_wall_part(
    sr: u8,
    sc: u8,
    enemy_key: u8,
    catalog: &[u8; 12],
    walls: &Vec<WallSlot>,
    part: u64,
) -> (mask: u16)
    requires
        sr < 9,
        sc < 9,
        enemy_key <= 4,
        layer_exists((sr as int, sc as int), enemy_key as int),
        is_catalog(catalog@, (sr as int, sc as int)),
        slots_ok(walls@),
        walls@.len() <= 12,
    ensures
        is_combo_mask(mask, walls@, part, (sr as int, sc as int), enemy_key as int),
{
    let board: MiniBoard = board_for_layer(sr, sc, enemy_key, walls, part);
    let mask: u16 = mini_mask(&board, sr * 9 + sc, catalog);
    proof {
        let f = (sr as int, sc as int);
        let h = board.horizontal_walls;
        let v = board.vertical_walls;
        let o = board.at(1);
        let o2 = layer_enemy(f, enemy_key as int);
        assert forall|s: int| 0 <= s < 12 implies #[trigger] bit64(mask as u64, s) == slot_legal(
            h,
            v,
            f,
            o2,
            s,
        ) by {
            if enemy_key == 0 {
                lemma_apart(h, v, f, o, o2, s);
            }
        }
    }
    mask
}

/// The legal destinations of the first pawn, which stands on `sq`.
pub fn mini_mask(board: &MiniBoard, sq: u8, catalog: &[u8; 12]) -> (mask: u16)
    requires
        sq < 81,
        board.at(0) == (sq as int / 9, sq as int % 9),
        is_catalog(catalog@, (sq as int / 9, sq as int % 9)),
    ensures
        is_mask(
            mask,
            board.horizontal_walls,
            board.vertical_walls,
            (sq as int / 9, sq as int % 9),
            board.at(1),
        ),
{
    let (dests, dn) = pawn_move_dests(board, 0, sq);
    let mask: u16 = legal_subset_mask(catalog, &dests, dn);
    proof {
        let f = (sq as int / 9, sq as int % 9);
        let h = board.horizontal_walls;
        let v = board.vertical_walls;
        let o = board.at(1);
        let list = dests@.subrange(0, dn as int);
        let moves = pawn_moves(h, v, f, o);
        assert forall|s: int| 0 <= s < 12 implies #[trigger] bit64(mask as u64, s) == slot_legal(
            h,
            v,
            f,
            o,
            s,
        ) by {
            let t = shifted(f, slot_offset(s));
            assert(catalog@[s] == slot_square(f, s));
            assert(catalog[s] == catalog@[s]);
            if sq_on_board(t) {
                lemma_dests_legal(h, v, f, o, t);
                lemma_listed_square(list, moves, t);
            }
        }
    }
    mask
}

proof fn lemma_listed_square(list: Seq<u8>, moves: Seq<crate::position::board::Move>, t: Sq)
    requires
        list.len() == moves.len(),
        forall|k: int| 0 <= k < list.len() ==> #[trigger] list[k] == move_square(moves[k]),
        sq_on_board(t),
    ensures
        list.contains((t.0 * 9 + t.1) as u8) == exists|k: int|
            0 <= k < moves.len() && move_square(#[trigger] moves[k]) == t.0 * 9 + t.1,
{
    let x = (t.0 * 9 + t.1) as u8;
    if list.contains(x) {
        let k = choose|k: int| 0 <= k < list.len() && list[k] == x;
        assert(move_square(moves[k]) == t.0 * 9 + t.1);
    }
    if exists|k: int| 0 <= k < moves.len() && move_square(#[trigger] moves[k]) == t.0 * 9 + t.1 {
        let k = choose|k: int|
            0 <= k < moves.len() && move_square(#[trigger] moves[k]) == t.0 * 9 + t.1;
        assert(list[k] == x);
    }
}

/// `mask` is what is legal under combination `part`.
pub open spec fn is_combo_mask(
    mask: u16,
    walls: Seq<WallSlot>,
    part: u64,
    f: Sq,
    enemy_key: int,
) -> bool {
    let n = walls.len() as int;
    is_mask(mask, combo_h(walls, part, n), combo_v(walls, part, n), f, layer_enemy(f, enemy_key))
}

/// Slot `idx` makes no difference to combination `part`.
pub open spec fn flip_same(walls: Seq<WallSlot>, part: u64, idx: int, f: Sq, o: Sq) -> bool {
    let n = walls.len() as int;
    let on = part | (1u64 << (idx as u64));
    same_moves(
        combo_h(walls, part, n),
        combo_v(walls, part, n),
        combo_h(walls, on, n),
        combo_v(walls, on, n),
        f,
        o,
    )
}

proof fn bv_clear(p: u64, k: u64)
    by (bit_vector)
    requires
        k < 64,
    ensures
        p & !(1u64 << k) <= p,
{
}

/// A slot that never makes a difference can be dropped.
proof fn lemma_drop(walls: Seq<WallSlot>, idx: int, f: Sq, o: Sq)
    requires
        slots_ok(walls),
        walls.len() <= 12,
        0 <= idx < walls.len(),
        decides(walls, f, o),
        forall|p: u64|
            p < (1u64 << (walls.len() as u64)) && !bit64(p, idx) ==> #[trigger] flip_same(
                walls,
                p,
                idx,
                f,
                o,
            ),
    ensures
        decides(walls.remove(idx), f, o),
        slots_ok(walls.remove(idx)),
{
    let n = walls.len() as int;
    let rest = walls.remove(idx);
    assert forall|h: u64, v: u64, h2: u64, v2: u64| #[trigger] agree(rest, h, v, h2, v2) implies
        same_moves(h, v, h2, v2, f, o) by {
        let p = combo_of(walls, h, v, n);
        let q = combo_of(walls, h2, v2, n);
        let one = 1u64 << (idx as u64);
        let off = p & !one;
        let on = off | one;
        lemma_combo_of(walls, h, v, n);
        lemma_combo_of(walls, h2, v2, n);
        lemma_combo_agrees(walls, h, v);
        lemma_combo_agrees(walls, h2, v2);
        bv_clear(p, idx as u64);
        assert forall|i: int| 0 <= i < 64 implies bit64(off, i) == (bit64(p, i) && i != idx)
            && bit64(on, i) == (bit64(p, i) || i == idx) by {
            lemma_bits64(p, !one, i);
            lemma_bits64(one, one, i);
            lemma_one64(idx, i);
            lemma_bits64(off, one, i);
        }
        assert forall|i: int| 0 <= i < 64 && i != idx implies bit64(p, i) == bit64(q, i) by {
            if i < n {
                let j = if i < idx { i } else { i - 1 };
                assert(rest[j] == walls[i]);
                assert(slot_on(h, v, rest[j]) == slot_on(h2, v2, rest[j]));
            }
        }
        assert(flip_same(walls, off, idx, f, o));
        if bit64(p, idx) {
            crate::util::bits::lemma_ext64(p, on);
        } else {
            crate::util::bits::lemma_ext64(p, off);
        }
        if bit64(q, idx) {
            crate::util::bits::lemma_ext64(q, on);
        } else {
            crate::util::bits::lemma_ext64(q, off);
        }
        lemma_same_chain(
            (h, v),
            (combo_h(walls, p, n), combo_v(walls, p, n)),
            (combo_h(walls, q, n), combo_v(walls, q, n)),
            (h2, v2),
            f,
            o,
        );
    }
    assert forall|i: int, j: int| 0 <= i < j < rest.len() implies slot_rank(#[trigger] rest[i])
        < slot_rank(#[trigger] rest[j]) by {
        let i2 = if i < idx { i } else { i + 1 };
        let j2 = if j < idx { j } else { j + 1 };
        assert(rest[i] == walls[i2] && rest[j] == walls[j2]);
    }
}

proof fn lemma_same_chain(a: (u64, u64), b: (u64, u64), c: (u64, u64), d: (u64, u64), f: Sq, o: Sq)
    requires
        same_moves(a.0, a.1, b.0, b.1, f, o),
        b == c || same_moves(b.0, b.1, c.0, c.1, f, o) || same_moves(c.0, c.1, b.0, b.1, f, o),
        same_moves(d.0, d.1, c.0, c.1, f, o),
    ensures
        same_moves(a.0, a.1, d.0, d.1, f, o),
{
    assert forall|s: int| 0 <= s < 12 implies #[trigger] slot_legal(a.0, a.1, f, o, s)
        == slot_legal(d.0, d.1, f, o, s) by {
        assert(slot_legal(a.0, a.1, f, o, s) == slot_legal(b.0, b.1, f, o, s));
        assert(slot_legal(d.0, d.1, f, o, s) == slot_legal(c.0, c.1, f, o, s));
        if b != c {
            if same_moves(b.0, b.1, c.0, c.1, f, o) {
                assert(slot_legal(b.0, b.1, f, o, s) == slot_legal(c.0, c.1, f, o, s));
            } else {
                assert(slot_legal(c.0, c.1, f, o, s) == slot_legal(b.0, b.1, f, o, s));
            }
        }
    }
}

/// Two combinations that differ in one slot only.
proof fn lemma_flip_differs(walls: Seq<WallSlot>, part: u64, idx: int)
    requires
        slots_ok(walls),
        walls.len() <= 12,
        0 <= idx < walls.len(),
    ensures
        ({
            let n = walls.len() as int;
            let on = part | (1u64 << (idx as u64));
            differ_only(
                walls[idx],
                combo_h(walls, part, n),
                combo_v(walls, part, n),
                combo_h(walls, on, n),
                combo_v(walls, on, n),
            )
        }),
{
    let n = walls.len() as int;
    let one = 1u64 << (idx as u64);
    let on = part | one;
    let w = walls[idx];
    assert forall|x: WallSlot| x != w && x.0 < 8 && x.1 < 8 implies #[trigger] slot_on(
        combo_h(walls, part, n),
        combo_v(walls, part, n),
        x,
    ) == slot_on(combo_h(walls, on, n), combo_v(walls, on, n), x) by {
        lemma_combo(walls, part, n, x);
        lemma_combo(walls, on, n, x);
        assert forall|i: int| 0 <= i < n implies #[trigger] picks(walls, part, i, x) == picks(
            walls,
            on,
            i,
            x,
        ) by {
            lemma_bits64(part, one, i);
            lemma_one64(idx, i);
        }
        if exists|i: int| 0 <= i < n && #[trigger] picks(walls, part, i, x) {
            let i = choose|i: int| 0 <= i < n && #[trigger] picks(walls, part, i, x);
            assert(picks(walls, on, i, x));
        }
        if exists|i: int| 0 <= i < n && #[trigger] picks(walls, on, i, x) {
            let i = choose|i: int| 0 <= i < n && #[trigger] picks(walls, on, i, x);
            assert(picks(walls, part, i, x));
        }
    }
}

/// Whether the slot ever changes the legal destinations; if not, the others
/// decide without it.
fn wall_is_essential(
    sr: u8,
    sc: u8,
    enemy_key: u8,
    catalog: &[u8; 12],
    walls: &Vec<WallSlot>,
    wall_idx: usize,
) -> (r: bool)
    requires
        sr < 9,
        sc < 9,
        enemy_key <= 4,
        layer_exists((sr as int, sc as int), enemy_key as int),
        is_catalog(catalog@, (sr as int, sc as int)),
        slots_ok(walls@),
        walls@.len() <= 12,
        wall_idx < walls@.len(),
        decides(
            walls@,
            (sr as int, sc as int),
            layer_enemy((sr as int, sc as int), enemy_key as int),
        ),
    ensures
        ({
            let f = (sr as int, sc as int);
            let o = layer_enemy(f, enemy_key as int);
            &&& r ==> matters(walls@[wall_idx as int], f, o)
            &&& !r ==> decides(walls@.remove(wall_idx as int), f, o) && slots_ok(
                walls@.remove(wall_idx as int),
            )
        }),
{
    let nw: usize = walls.len();
    let ghost f = (sr as int, sc as int);
    let ghost o = layer_enemy(f, enemy_key as int);
    proof {
        lemma_combo_counts();
    }
    let combos: u64 = 1u64 << (nw as u64);
    let one: u64 = 1u64 << (wall_idx as u64);
    let mut off: u64 = 0;
    while off < combos
        invariant
            sr < 9,
            sc < 9,
            enemy_key <= 4,
            f == (sr as int, sc as int),
            o == layer_enemy(f, enemy_key as int),
            layer_exists(f, enemy_key as int),
            is_catalog(catalog@, f),
            slots_ok(walls@),
            nw == walls@.len() <= 12,
            wall_idx < nw,
            decides(walls@, f, o),
            combos == 1u64 << (nw as u64),
            combos <= 4096,
            one == 1u64 << (wall_idx as u64),
            off <= combos,
            forall|p: u64|
                p < off && !bit64(p, wall_idx as int) ==> #[trigger] flip_same(
                    walls@,
                    p,
                    wall_idx as int,
                    f,
                    o,
                ),
        decreases combos - off,
    {
        if (off >> (wall_idx as u64)) & 1 != 1 {
            let on: u64 = off | one;
            let m0: u16 = mask_for_wall_part(sr, sc, enemy_key, catalog, walls, off);
            let m1: u16 = mask_for_wall_part(sr, sc, enemy_key, catalog, walls, on);
            let ghost n = walls@.len() as int;
            let ghost h0 = combo_h(walls@, off, n);
            let ghost v0 = combo_v(walls@, off, n);
            let ghost h1 = combo_h(walls@, on, n);
            let ghost v1 = combo_v(walls@, on, n);
            if m0 != m1 {
                proof {
                    lemma_flip_differs(walls@, off, wall_idx as int);
                    if same_moves(h0, v0, h1, v1, f, o) {
                        assert forall|s: int| 0 <= s < 12 implies #[trigger] bit64(m0 as u64, s)
                            == bit64(m1 as u64, s) by {
                            assert(slot_legal(h0, v0, f, o, s) == slot_legal(h1, v1, f, o, s));
                        }
                        lemma_mask_unique(m0, m1);
                    }
                    assert(walls@[wall_idx as int].0 < 8);
                }
                return true;
            }
            proof {
                assert forall|s: int| 0 <= s < 12 implies #[trigger] slot_legal(h0, v0, f, o, s)
                    == slot_legal(h1, v1, f, o, s) by {
                    assert(bit64(m0 as u64, s) == slot_legal(h0, v0, f, o, s));
                    assert(bit64(m1 as u64, s) == slot_legal(h1, v1, f, o, s));
                }
                assert(flip_same(walls@, off, wall_idx as int, f, o));
            }
        }
        off = off + 1;
    }
    proof {
        lemma_drop(walls@, wall_idx as int, f, o);
    }
    false
}

/// Exactly the slots that matter, in order.
pub open spec fn is_essential_set(walls: Seq<WallSlot>, f: Sq, o: Sq) -> bool {
    &&& slots_ok(walls)
    &&& decides(walls, f, o)
    &&& forall|w: WallSlot| #[trigger] walls.contains(w) <==> matters(w, f, o)
}

/// A slot that matters is among those that decide.
proof fn lemma_matters_listed(walls: Seq<WallSlot>, w: WallSlot, f: Sq, o: Sq)
    requires
        decides(walls, f, o),
        slots_ok(walls),
        matters(w, f, o),
    ensures
        walls.contains(w),
{
    if !walls.contains(w) {
        let (h, v, h2, v2) = choose|h: u64, v: u64, h2: u64, v2: u64| #[trigger]
            differ_only(w, h, v, h2, v2) && !same_moves(h, v, h2, v2, f, o);
        assert forall|i: int| 0 <= i < walls.len() implies slot_on(h, v, #[trigger] walls[i])
            == slot_on(h2, v2, walls[i]) by {
            assert(walls[i] != w);
        }
        assert(agree(walls, h, v, h2, v2));
    }
}

/// The slots that matter to a layer: candidates without those that never
/// change the legal destinations.
fn essential_wall_slots(sr: u8, sc: u8, enemy_key: u8, catalog: &[u8; 12]) -> (walls: Vec<WallSlot>)
    requires
        sr < 9,
        sc < 9,
        enemy_key <= 4,
        layer_exists((sr as int, sc as int), enemy_key as int),
        is_catalog(catalog@, (sr as int, sc as int)),
    ensures
        is_essential_set(
            walls@,
            (sr as int, sc as int),
            layer_enemy((sr as int, sc as int), enemy_key as int),
        ),
        walls@.len() <= 12,
{
    let ghost f = (sr as int, sc as int);
    let ghost o = layer_enemy(f, enemy_key as int);
    let mut walls: Vec<WallSlot> = wall_candidates(sr, sc, enemy_key);
    proof {
        lemma_covers_decides(walls@, f, enemy_key as int);
    }
    loop
        invariant
            sr < 9,
            sc < 9,
            enemy_key <= 4,
            f == (sr as int, sc as int),
            o == layer_enemy(f, enemy_key as int),
            layer_exists(f, enemy_key as int),
            is_catalog(catalog@, f),
            slots_ok(walls@),
            walls@.len() <= 12,
            decides(walls@, f, o),
        decreases walls@.len(),
    {
        let before: usize = walls.len();
        let mut idx: usize = walls.len();
        while idx > 0
            invariant
                sr < 9,
                sc < 9,
                enemy_key <= 4,
                f == (sr as int, sc as int),
                o == layer_enemy(f, enemy_key as int),
                layer_exists(f, enemy_key as int),
                is_catalog(catalog@, f),
                slots_ok(walls@),
                walls@.len() <= before <= 12,
                idx <= walls@.len(),
                decides(walls@, f, o),
                walls@.len() == before ==> forall|i: int|
                    idx <= i < walls@.len() ==> matters(#[trigger] walls@[i], f, o),
            decreases idx,
        {
            idx = idx - 1;
            if !wall_is_essential(sr, sc, enemy_key, catalog, &walls, idx) {
                walls.remove(idx);
            }
        }
        if walls.len() == before {
            proof {
                assert forall|w: WallSlot| #[trigger] walls@.contains(w) <==> matters(w, f, o) by {
                    if matters(w, f, o) {
                        lemma_matters_listed(walls@, w, f, o);
                    }
                }
            }
            return walls;
        }
    }
}

// --- distinct masks ---

/// Destination number `i` of those that a layer can ever allow.
pub open spec fn support(enemy_key: int, i: int) -> int {
    if enemy_key == 0 {
        if i < 4 {
            i
        } else {
            12
        }
    } else if enemy_key == 1 {
        if i == 0 { 0 } else if i == 1 { 2 } else if i == 2 { 3 } else if i == 3 { 5 } else if i == 4 { 8 } else { 9 }
    } else if enemy_key == 2 {
        if i == 0 { 1 } else if i == 1 { 2 } else if i == 2 { 3 } else if i == 3 { 4 } else if i == 4 { 10 } else { 11 }
    } else if enemy_key == 3 {
        if i == 0 { 0 } else if i == 1 { 1 } else if i == 2 { 2 } else if i == 3 { 7 } else if i == 4 { 9 } else { 11 }
    } else {
        if i == 0 { 0 } else if i == 1 { 1 } else if i == 2 { 3 } else if i == 3 { 6 } else if i == 4 { 8 } else { 10 }
    }
}

/// `s` is one of the destinations that the layer can ever allow.
pub open spec fn in_support(enemy_key: int, s: int) -> bool {
    s == support(enemy_key, 0) || s == support(enemy_key, 1) || s == support(enemy_key, 2) || s
        == support(enemy_key, 3) || s == support(enemy_key, 4) || s == support(enemy_key, 5)
}

proof fn lemma_support(h: u64, v: u64, f: Sq, enemy_key: int, s: int)
    requires
        sq_on_board(f),
        0 <= enemy_key <= 4,
        0 <= s < 12,
        slot_legal(h, v, f, layer_enemy(f, enemy_key), s),
    ensures
        in_support(enemy_key, s),
{
    let o = layer_enemy(f, enemy_key);
    let t = shifted(f, slot_offset(s));
    let mv = pawn_to(t);
    let d = choose|d: Sq| #[trigger] unit(d) && pawn_legal_dir(h, v, f, o, d, mv);
    let n = shifted(f, d);
    assert(sq_on_board(n));
    if n != o {
        assert(t == n);
        assert(slot_offset(s) == d);
    } else {
        assert(d == enemy_offset_spec(enemy_key));
        if open_from(h, v, n, d) {
            assert(sq_on_board(shifted(n, d)));
            assert(t == shifted(n, d));
        } else {
            let a = choose|a: Sq| #[trigger]
                across(d, a) && open_from(h, v, n, a) && mv == pawn_to(shifted(n, a));
            assert(sq_on_board(shifted(n, a)));
            assert(t == shifted(n, a));
        }
    }
}

spec fn b01(m: u16, s: int) -> int {
    if bit64(m as u64, s) {
        1
    } else {
        0
    }
}

/// A number below 64 that tells the masks of a layer apart.
spec fn mask_code(m: u16, k: int) -> int {
    b01(m, support(k, 0)) + 2 * b01(m, support(k, 1)) + 4 * b01(m, support(k, 2)) + 8 * b01(
        m,
        support(k, 3),
    ) + 16 * b01(m, support(k, 4)) + 32 * b01(m, support(k, 5))
}

/// A mask that some combination of a layer gives.
pub open spec fn layer_mask(m: u16, f: Sq, enemy_key: int) -> bool {
    exists|h: u64, v: u64| #[trigger] is_mask(m, h, v, f, layer_enemy(f, enemy_key))
}

proof fn lemma_code_apart(m: u16, n: u16, f: Sq, enemy_key: int)
    requires
        sq_on_board(f),
        0 <= enemy_key <= 4,
        layer_mask(m, f, enemy_key),
        layer_mask(n, f, enemy_key),
        mask_code(m, enemy_key) == mask_code(n, enemy_key),
    ensures
        m == n,
{
    let o = layer_enemy(f, enemy_key);
    let (h, v) = choose|h: u64, v: u64| #[trigger] is_mask(m, h, v, f, o);
    let (h2, v2) = choose|h: u64, v: u64| #[trigger] is_mask(n, h, v, f, o);
    assert forall|s: int| 0 <= s < 12 implies #[trigger] bit64(m as u64, s) == bit64(
        n as u64,
        s,
    ) by {
        assert(bit64(m as u64, s) == slot_legal(h, v, f, o, s));
        assert(bit64(n as u64, s) == slot_legal(h2, v2, f, o, s));
        if bit64(m as u64, s) {
            lemma_support(h, v, f, enemy_key, s);
        }
        if bit64(n as u64, s) {
            lemma_support(h2, v2, f, enemy_key, s);
        }
    }
    lemma_mask_unique(m, n);
}

/// Distinct numbers below `n` are at most `n`.
proof fn lemma_pigeon(s: Seq<int>, n: int)
    requires
        s.no_duplicates(),
        0 <= n,
        forall|i: int| 0 <= i < s.len() ==> 0 <= #[trigger] s[i] < n,
    ensures
        s.len() <= n,
{
    s.unique_seq_to_set();
    vstd::set_lib::lemma_int_range(0, n);
    let r = vstd::set_lib::set_int_range(0, n);
    assert(s.to_set().subset_of(r));
    vstd::set_lib::lemma_len_subset(s.to_set(), r);
}

/// The first `count` masks are distinct masks of the layer.
spec fn distinct_masks(table: Seq<u16>, count: int, f: Sq, enemy_key: int) -> bool {
    &&& forall|i: int| 0 <= i < count ==> layer_mask(#[trigger] table[i], f, enemy_key)
    &&& forall|i: int, j: int| 0 <= i < j < count ==> #[trigger] table[i] != #[trigger] table[j]
}

/// A layer has at most 64 masks.
proof fn lemma_mask_count(table: Seq<u16>, count: int, f: Sq, enemy_key: int)
    requires
        sq_on_board(f),
        0 <= enemy_key <= 4,
        0 <= count <= table.len(),
        distinct_masks(table, count, f, enemy_key),
    ensures
        count <= 64,
{
    let codes = Seq::new(count as nat, |i: int| mask_code(table[i], enemy_key));
    assert forall|i: int, j: int| 0 <= i < codes.len() && 0 <= j < codes.len() && i != j implies
        codes[i] != codes[j] by {
        if codes[i] == codes[j] {
            lemma_code_apart(table[i], table[j], f, enemy_key);
            if i < j {
                assert(table[i] != table[j]);
            } else {
                assert(table[j] != table[i]);
            }
        }
    }
    lemma_pigeon(codes, 64);
}

// --- tables ---

pub struct EnemyLayerMeta {
    pub enemy_key: u8,
    pub valid: bool,
    pub wall_bits: Vec<WallSlot>,
    /// Distinct wall keys in use.
    pub wall_combo_count: u16,
    pub table: [u16; 256],
    /// Combination number to wall key.
    pub wall_remap: Vec<u8>,
}

impl EnemyLayerMeta {
    /// The layer's table is right: every combination of the slots that matter
    /// leads to the mask of what is legal under it. Keys are given to masks in
    /// the order in which the masks first occur, and the rest of the table is
    /// zero.
    pub open spec fn right_for(self, f: Sq, enemy_key: int) -> bool {
        let nw = self.wall_bits@.len();
        let o = layer_enemy(f, enemy_key);
        &&& self.enemy_key == enemy_key
        &&& self.valid == layer_exists(f, enemy_key)
        &&& self.valid ==> {
            &&& is_essential_set(self.wall_bits@, f, o)
            &&& nw <= 12
            &&& self.wall_remap@.len() == 1u64 << (nw as u64)
            &&& self.wall_combo_count <= 64
            &&& forall|p: int|
                0 <= p < self.wall_remap@.len() ==> #[trigger] self.wall_remap@[p]
                    < self.wall_combo_count && is_combo_mask(
                    self.table[self.wall_remap@[p] as int],
                    self.wall_bits@,
                    p as u64,
                    f,
                    enemy_key,
                )
            &&& keys_in_order(self.wall_remap@, self.wall_combo_count as int)
            &&& forall|i: int, j: int|
                0 <= i < j < self.wall_combo_count ==> #[trigger] self.table[i]
                    != #[trigger] self.table[j]
            &&& forall|k: int| self.wall_combo_count <= k < 256 ==> #[trigger] self.table[k] == 0
        }
        &&& !self.valid ==> {
            &&& nw == 0
            &&& self.wall_combo_count == 0
            &&& self.wall_remap@.len() == 0
            &&& forall|k: int| 0 <= k < 256 ==> #[trigger] self.table[k] == 0
        }
    }
}

/// Key `k` occurs before position `p`.
pub open spec fn occurs_before(remap: Seq<u8>, p: int, k: int) -> bool {
    exists|q: int| 0 <= q < p && #[trigger] remap[q] == k
}

/// Every key below `count` occurs, and only after all smaller ones.
pub open spec fn keys_in_order(remap: Seq<u8>, count: int) -> bool {
    &&& forall|k: int| 0 <= k < count ==> #[trigger] occurs_before(remap, remap.len() as int, k)
    &&& forall|p: int, k: int|
        0 <= p < remap.len() && 0 <= k < remap[p] ==> #[trigger] occurs_before(remap, p, k)
}

/// Position of a mask among the first `count` entries.
fn find_key(table: &[u16; 256], count: usize, mask: u16) -> (r: Option<usize>)
    requires
        count <= 256,
    ensures
        r matches Some(k) ==> k < count && table[k as int] == mask,
        r is None ==> forall|k: int| 0 <= k < count ==> #[trigger] table[k] != mask,
{
    let mut k: usize = 0;
    while k < count
        invariant
            k <= count <= 256,
            forall|j: int| 0 <= j < k ==> #[trigger] table[j] != mask,
        decreases count - k,
    {
        if table[k] == mask {
            return Some(k);
        }
        k = k + 1;
    }
    None
}

fn discover_enemy_layer(sr: u8, sc: u8, enemy_key: u8, catalog: &[u8; 12]) -> (layer: EnemyLayerMeta)
    requires
        sr < 9,
        sc < 9,
        enemy_key <= 4,
        is_catalog(catalog@, (sr as int, sc as int)),
    ensures
        layer.right_for((sr as int, sc as int), enemy_key as int),
{
    if enemy_key > 0 && !cardinal_valid(sr, sc, enemy_key) {
        return EnemyLayerMeta {
            enemy_key,
            valid: false,
            wall_bits: Vec::new(),
            wall_combo_count: 0,
            table: [0u16; 256],
            wall_remap: Vec::new(),
        };
    }
    let ghost f = (sr as int, sc as int);
    let wall_bits: Vec<WallSlot> = essential_wall_slots(sr, sc, enemy_key, catalog);
    let nw: usize = wall_bits.len();
    proof {
        lemma_combo_counts();
    }
    let phys_combos: u64 = 1u64 << (nw as u64);
    let mut table: [u16; 256] = [0u16; 256];
    let mut wall_remap: Vec<u8> = Vec::new();
    let mut count: usize = 0;
    let mut phys: u64 = 0;
    while phys < phys_combos
        invariant
            sr < 9,
            sc < 9,
            enemy_key <= 4,
            f == (sr as int, sc as int),
            layer_exists(f, enemy_key as int),
            is_catalog(catalog@, f),
            slots_ok(wall_bits@),
            wall_bits@.len() <= 12,
            phys <= phys_combos <= 4096,
            wall_remap@.len() == phys,
            count <= 64,
            forall|p: int|
                0 <= p < phys ==> #[trigger] wall_remap@[p] < count && is_combo_mask(
                    table[wall_remap@[p] as int],
                    wall_bits@,
                    p as u64,
                    f,
                    enemy_key as int,
                ),
            distinct_masks(table@, count as int, f, enemy_key as int),
            keys_in_order(wall_remap@, count as int),
            forall|k: int| count <= k < 256 ==> #[trigger] table[k] == 0,
        decreases phys_combos - phys,
    {
        let mask: u16 = mask_for_wall_part(sr, sc, enemy_key, catalog, &wall_bits, phys);
        assert(layer_mask(mask, f, enemy_key as int));
        let ghost before = wall_remap@;
        let ghost before_table = table;
        let ghost before_count = count;
        let key: usize = match find_key(&table, count, mask) {
            Some(k) => k,
            None => {
                let k: usize = count;
                table[k] = mask;
                count = count + 1;
                proof {
                    assert forall|i: int| 0 <= i < count implies layer_mask(
                        #[trigger] table@[i],
                        f,
                        enemy_key as int,
                    ) by {
                        if i < k {
                            assert(table@[i] == before_table@[i]);
                        }
                    }
                    assert forall|i: int, j: int| 0 <= i < j < count implies #[trigger] table@[i]
                        != #[trigger] table@[j] by {
                        assert(table@[i] == before_table@[i]);
                        if j < k {
                            assert(table@[j] == before_table@[j]);
                        } else {
                            assert(before_table[i] != mask);
                        }
                    }
                    lemma_mask_count(table@, count as int, f, enemy_key as int);
                }
                k
            },
        };
        wall_remap.push(key as u8);
        proof {
            lemma_keys_pushed(before, before_count as int, key as u8);
            assert forall|p: int| 0 <= p < phys + 1 implies #[trigger] wall_remap@[p] < count
                && is_combo_mask(
                table[wall_remap@[p] as int],
                wall_bits@,
                p as u64,
                f,
                enemy_key as int,
            ) by {
                if p < phys {
                    assert(before[p] == wall_remap@[p]);
                    assert(table[before[p] as int] == before_table[before[p] as int]);
                }
            }
        }
        phys = phys + 1;
    }
    proof {
        assert forall|i: int, j: int| 0 <= i < j < count implies #[trigger] table[i]
            != #[trigger] table[j] by {
            assert(table@[i] != table@[j]);
        }
    }
    EnemyLayerMeta {
        enemy_key,
        valid: true,
        wall_bits,
        wall_combo_count: count as u16,
        table,
        wall_remap,
    }
}

/// Keys stay in order when a known key, or the next new one, is appended.
proof fn lemma_keys_pushed(remap: Seq<u8>, count: int, key: u8)
    requires
        keys_in_order(remap, count),
        0 <= key <= count,
    ensures
        keys_in_order(
            remap.push(key),
            if key == count {
                count + 1
            } else {
                count
            },
        ),
{
    let more = remap.push(key);
    let n = remap.len() as int;
    assert forall|p: int, k: int| 0 <= p <= n && #[trigger] occurs_before(remap, p, k) implies
        occurs_before(more, p, k) by {
        let q = choose|q: int| 0 <= q < p && #[trigger] remap[q] == k;
        assert(more[q] == k);
    }
    assert forall|k: int|
        0 <= k < (if key == count {
            count + 1
        } else {
            count
        }) implies #[trigger] occurs_before(more, more.len() as int, k) by {
        if k == key {
            assert(more[n] == k);
        } else {
            assert(occurs_before(remap, n, k));
            let q = choose|q: int| 0 <= q < n && #[trigger] remap[q] == k;
            assert(more[q] == k);
        }
    }
    assert forall|p: int, k: int| 0 <= p < more.len() && 0 <= k < more[p] implies #[trigger]
        occurs_before(more, p, k) by {
        if p < n {
            assert(more[p] == remap[p]);
            assert(occurs_before(remap, p, k));
        } else {
            assert(occurs_before(remap, n, k));
        }
    }
}

pub struct PawnSquareMeta {
    pub catalog: [u8; 12],
    pub layers: [EnemyLayerMeta; 5],
}

impl PawnSquareMeta {
    /// The tables of one square are right.
    pub open spec fn right_for(self, sq: int) -> bool {
        let f = (sq / 9, sq % 9);
        &&& is_catalog(self.catalog@, f)
        &&& forall|k: int| 0 <= k < 5 ==> (#[trigger] self.layers[k]).right_for(f, k)
    }
}

/// The tables of one square.
pub fn discover_pawn_square(sq: u8) -> (m: PawnSquareMeta)
    requires
        sq < 81,
    ensures
        m.right_for(sq as int),
{
    let sr: u8 = sq / 9;
    let sc: u8 = sq % 9;
    let catalog: [u8; 12] = pseudo_catalog(sr, sc);
    let layers: [EnemyLayerMeta; 5] = [
        discover_enemy_layer(sr, sc, 0, &catalog),
        discover_enemy_layer(sr, sc, 1, &catalog),
        discover_enemy_layer(sr, sc, 2, &catalog),
        discover_enemy_layer(sr, sc, 3, &catalog),
        discover_enemy_layer(sr, sc, 4, &catalog),
    ];
    PawnSquareMeta { catalog, layers }
}

/// The tables of all squares.
pub fn discover_all_pawn_tables() -> (r: Vec<PawnSquareMeta>)
    ensures
        r@.len() == 81,
        forall|sq: int| 0 <= sq < 81 ==> (#[trigger] r@[sq]).right_for(sq),
{
    let mut result: Vec<PawnSquareMeta> = Vec::new();
    let mut sq: u8 = 0;
    while sq < 81
        invariant
            sq <= 81,
            result@.len() == sq,
            forall|k: int| 0 <= k < sq ==> (#[trigger] result@[k]).right_for(k),
        decreases 81 - sq,
    {
        result.push(discover_pawn_square(sq));
        sq = sq + 1;
    }
    result
}

} // verus!
