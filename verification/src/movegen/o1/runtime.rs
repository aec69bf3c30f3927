//! Pawn lookup tables in memory.
//!
//! Building them takes a second or two, so whoever generates many moves keeps
//! one set and hands it to the generator.

use vstd::prelude::*;

use crate::movegen::o1::gen::pawn::{
    combo_h, combo_v, discover_all_pawn_tables, is_combo_mask, is_essential_set, layer_enemy,
    layer_exists, lemma_combo_counts, EnemyLayerMeta, PawnSquareMeta, WallSlot, ENEMY_LAYERS,
    PHYS_WALL_COMBOS,
};
use crate::movegen::o1::gen::pseudo_moves::is_catalog;

verus! {

/// Pawn lookup tables, indexed by square and enemy key.
pub struct PawnTables {
    pub catalog: Vec<[u8; 12]>,
    pub legal: Vec<[[u16; 256]; 5]>,
    pub layer_valid: Vec<[u8; 5]>,
    pub wall_combo_count: Vec<[u16; 5]>,
    pub wall_slot_count: Vec<[u8; 5]>,
    pub desc_row: Vec<[[u8; 12]; 5]>,
    pub desc_col: Vec<[[u8; 12]; 5]>,
    pub desc_h: Vec<[[u8; 12]; 5]>,
    pub h_pext_mask: Vec<[u64; 5]>,
    pub v_pext_mask: Vec<[u64; 5]>,
    pub h_slot_count: Vec<[u8; 5]>,
    /// `[(sq * 5 + enemy_key) * 4096 + combination]` to wall key.
    pub remap: Vec<u8>,
}

/// The number of horizontal slots among the first `k`.
pub open spec fn horizontal_count(walls: Seq<WallSlot>, k: int) -> int
    decreases k,
{
    if k <= 0 {
        0
    } else {
        horizontal_count(walls, k - 1) + (if walls[k - 1].2 {
            1int
        } else {
            0int
        })
    }
}

/// Where the combinations of a layer start in `remap`.
pub open spec fn remap_base(sq: int, k: int) -> int {
    (sq * 5 + k) * 4096
}

impl PawnTables {
    /// The wall slots of a layer, from their description.
    pub open spec fn slots(self, sq: int, k: int) -> Seq<WallSlot> {
        Seq::new(
            self.wall_slot_count@[sq][k] as nat,
            |i: int|
                (
                    self.desc_row@[sq][k][i],
                    self.desc_col@[sq][k][i],
                    self.desc_h@[sq][k][i] != 0,
                ),
        )
    }

    /// The tables of one layer are right: from every combination of the slots
    /// that matter they lead to the mask of what is legal.
    pub open spec fn layer_right(self, sq: int, k: int) -> bool {
        let f = (sq / 9, sq % 9);
        let walls = self.slots(sq, k);
        let nw = walls.len();
        &&& self.layer_valid@[sq][k] == (if layer_exists(f, k) {
            1u8
        } else {
            0u8
        })
        &&& nw <= 12
        &&& forall|i: int|
            nw <= i < 12 ==> #[trigger] self.desc_row@[sq][k][i] == 255 && self.desc_col@[sq][k][i]
                == 255 && self.desc_h@[sq][k][i] == 255
        &&& forall|i: int| 0 <= i < nw ==> #[trigger] self.desc_h@[sq][k][i] <= 1
        &&& self.h_pext_mask@[sq][k] == combo_h(walls, u64::MAX, nw as int)
        &&& self.v_pext_mask@[sq][k] == combo_v(walls, u64::MAX, nw as int)
        &&& self.h_slot_count@[sq][k] == horizontal_count(walls, nw as int)
        &&& layer_exists(f, k) ==> {
            &&& is_essential_set(walls, f, layer_enemy(f, k))
            &&& self.wall_combo_count@[sq][k] <= 64
            &&& forall|p: int|
                0 <= p < 1u64 << (nw as u64) ==> #[trigger] self.remap@[remap_base(sq, k) + p]
                    < self.wall_combo_count@[sq][k] && is_combo_mask(
                    self.legal@[sq][k][self.remap@[remap_base(sq, k) + p] as int],
                    walls,
                    p as u64,
                    f,
                    k,
                )
        }
    }

    /// The tables of the first `n` squares are there and right.
    pub open spec fn right_upto(self, n: int) -> bool {
        &&& self.catalog@.len() == n
        &&& self.legal@.len() == n
        &&& self.layer_valid@.len() == n
        &&& self.wall_combo_count@.len() == n
        &&& self.wall_slot_count@.len() == n
        &&& self.desc_row@.len() == n
        &&& self.desc_col@.len() == n
        &&& self.desc_h@.len() == n
        &&& self.h_pext_mask@.len() == n
        &&& self.v_pext_mask@.len() == n
        &&& self.h_slot_count@.len() == n
        &&& self.remap@.len() == remap_base(n, 0)
        &&& forall|sq: int| 0 <= sq < n ==> is_catalog(#[trigger] self.catalog@[sq]@, (sq / 9, sq % 9))
        &&& forall|sq: int, k: int|
            0 <= sq < n && 0 <= k < 5 ==> #[trigger] self.layer_right(sq, k)
    }

    /// All tables are right.
    pub open spec fn right(self) -> bool {
        self.right_upto(81)
    }

    /// The wall key of a combination.
    #[inline]
    pub fn wall_remap_byte(&self, sq: u8, enemy_key: u8, phys_combo: usize) -> (r: u8)
        requires
            remap_base(sq as int, enemy_key as int) + phys_combo < self.remap@.len(),
        ensures
            r == self.remap@[remap_base(sq as int, enemy_key as int) + phys_combo],
    {
        assert(self.remap.len() == self.remap@.len());
        let idx: usize = (sq as usize * ENEMY_LAYERS + enemy_key as usize) * PHYS_WALL_COMBOS
            + phys_combo;
        self.remap[idx]
    }
}

/// Appends a layer's wall keys, padded with zeros to the full range.
fn append_remap(remap: &mut Vec<u8>, keys: &Vec<u8>)
    requires
        keys@.len() <= 4096,
        old(remap)@.len() + 4096 <= usize::MAX,
    ensures
        final(remap)@.len() == old(remap)@.len() + 4096,
        forall|i: int| 0 <= i < old(remap)@.len() ==> #[trigger] final(remap)@[i] == old(remap)@[i],
        forall|i: int|
            0 <= i < keys@.len() ==> #[trigger] final(remap)@[old(remap)@.len() + i] == keys@[i],
{
    let ghost base = remap@.len();
    let mut i: usize = 0;
    while i < PHYS_WALL_COMBOS
        invariant
            i <= 4096,
            keys@.len() <= 4096,
            base == old(remap)@.len(),
            base + 4096 <= usize::MAX,
            remap@.len() == base + i,
            forall|j: int| 0 <= j < base ==> #[trigger] remap@[j] == old(remap)@[j],
            forall|j: int| 0 <= j < keys@.len() && j < i ==> #[trigger] remap@[base + j] == keys@[j],
        decreases 4096 - i,
    {
        let ghost before = remap@;
        if i < keys.len() {
            remap.push(keys[i]);
        } else {
            remap.push(0);
        }
        proof {
            assert forall|j: int| 0 <= j < keys@.len() && j < i + 1 implies #[trigger] remap@[base
                + j] == keys@[j] by {
                if j < i {
                    assert(before[base + j] == keys@[j]);
                }
            }
        }
        i = i + 1;
    }
}

/// A layer in the form in which the tables hold it.
struct LayerRow {
    valid: u8,
    slot_count: u8,
    row: [u8; 12],
    col: [u8; 12],
    horizontal: [u8; 12],
    h_mask: u64,
    v_mask: u64,
    h_count: u8,
}

/// At most twelve slots of the grid.
spec fn is_slot_list(walls: Seq<WallSlot>) -> bool {
    &&& walls.len() <= 12
    &&& forall|i: int| 0 <= i < walls.len() ==> (#[trigger] walls[i]).0 < 8 && walls[i].1 < 8
}

/// Rows of the slots, 255 beyond the last.
pub open spec fn desc_rows(walls: Seq<WallSlot>) -> Seq<u8> {
    Seq::new(
        12,
        |i: int|
            if i < walls.len() {
                walls[i].0
            } else {
                255u8
            },
    )
}

/// Columns of the slots, 255 beyond the last.
pub open spec fn desc_cols(walls: Seq<WallSlot>) -> Seq<u8> {
    Seq::new(
        12,
        |i: int|
            if i < walls.len() {
                walls[i].1
            } else {
                255u8
            },
    )
}

/// 1 for a horizontal slot, 0 for a vertical one, 255 beyond the last.
pub open spec fn desc_flags(walls: Seq<WallSlot>) -> Seq<u8> {
    Seq::new(
        12,
        |i: int|
            if i >= walls.len() {
                255u8
            } else if walls[i].2 {
                1u8
            } else {
                0u8
            },
    )
}

/// The row says what the layer says.
spec fn describes(r: LayerRow, layer: EnemyLayerMeta) -> bool {
    let walls = layer.wall_bits@;
    let n = walls.len() as int;
    &&& n <= 12
    &&& r.valid == (if layer.valid {
        1u8
    } else {
        0u8
    })
    &&& r.slot_count == n
    &&& r.row@ == desc_rows(walls)
    &&& r.col@ == desc_cols(walls)
    &&& r.horizontal@ == desc_flags(walls)
    &&& r.h_mask == combo_h(walls, u64::MAX, n)
    &&& r.v_mask == combo_v(walls, u64::MAX, n)
    &&& r.h_count == horizontal_count(walls, n)
}

fn describe_layer(layer: &EnemyLayerMeta) -> (r: LayerRow)
    requires
        is_slot_list(layer.wall_bits@),
    ensures
        describes(r, *layer),
{
    let n: usize = layer.wall_bits.len();
    let ghost walls = layer.wall_bits@;
    let mut row: [u8; 12] = [255u8; 12];
    let mut col: [u8; 12] = [255u8; 12];
    let mut horizontal: [u8; 12] = [255u8; 12];
    let mut h_mask: u64 = 0;
    let mut v_mask: u64 = 0;
    let mut h_count: u8 = 0;
    let mut i: usize = 0;
    while i < n
        invariant
            i <= n <= 12,
            n == walls.len(),
            walls == layer.wall_bits@,
            forall|j: int| 0 <= j < walls.len() ==> (#[trigger] walls[j]).0 < 8 && walls[j].1 < 8,
            row@ == desc_rows(walls.subrange(0, i as int)),
            col@ == desc_cols(walls.subrange(0, i as int)),
            horizontal@ == desc_flags(walls.subrange(0, i as int)),
            h_mask == combo_h(walls, u64::MAX, i as int),
            v_mask == combo_v(walls, u64::MAX, i as int),
            h_count == horizontal_count(walls, i as int),
            h_count <= i,
        decreases n - i,
    {
        let w: WallSlot = layer.wall_bits[i];
        assert(walls[i as int].0 < 8);
        let bit: u64 = 1u64 << (w.0 as u64 * 8 + w.1 as u64);
        proof {
            bv_all_ones(i as u64);
        }
        row[i] = w.0;
        col[i] = w.1;
        horizontal[i] = if w.2 {
            1
        } else {
            0
        };
        if w.2 {
            h_mask = h_mask | bit;
            h_count = h_count + 1;
        } else {
            v_mask = v_mask | bit;
        }
        proof {
            let now = walls.subrange(0, i + 1);
            assert(row@ =~= desc_rows(now));
            assert(col@ =~= desc_cols(now));
            assert(horizontal@ =~= desc_flags(now));
        }
        i = i + 1;
    }
    assert(walls.subrange(0, n as int) =~= walls);
    LayerRow {
        valid: if layer.valid {
            1
        } else {
            0
        },
        slot_count: n as u8,
        row,
        col,
        horizontal,
        h_mask,
        v_mask,
        h_count,
    }
}

proof fn bv_all_ones(i: u64)
    by (bit_vector)
    requires
        i < 64,
    ensures
        (0xFFFF_FFFF_FFFF_FFFFu64 >> i) & 1 == 1,
{
}

/// Adds the tables of the next square.
fn push_square(t: &mut PawnTables, p: &PawnSquareMeta, sq: u8)
    requires
        sq < 81,
        old(t).right_upto(sq as int),
        p.right_for(sq as int),
    ensures
        final(t).right_upto(sq + 1),
{
    let ghost f = (sq as int / 9, sq as int % 9);
    proof {
        assert(p.layers[0].right_for(f, 0));
        assert(p.layers[1].right_for(f, 1));
        assert(p.layers[2].right_for(f, 2));
        assert(p.layers[3].right_for(f, 3));
        assert(p.layers[4].right_for(f, 4));
        assert forall|k: int| 0 <= k < 5 implies is_slot_list(#[trigger] p.layers[k].wall_bits@) by {
            assert(p.layers[k].right_for(f, k));
        }
        lemma_combo_counts();
    }
    let a: LayerRow = describe_layer(&p.layers[0]);
    let b: LayerRow = describe_layer(&p.layers[1]);
    let c: LayerRow = describe_layer(&p.layers[2]);
    let d: LayerRow = describe_layer(&p.layers[3]);
    let e: LayerRow = describe_layer(&p.layers[4]);
    t.catalog.push(p.catalog);
    t.legal.push(
        [p.layers[0].table, p.layers[1].table, p.layers[2].table, p.layers[3].table, p.layers[4].table],
    );
    t.layer_valid.push([a.valid, b.valid, c.valid, d.valid, e.valid]);
    t.wall_combo_count.push(
        [
            p.layers[0].wall_combo_count,
            p.layers[1].wall_combo_count,
            p.layers[2].wall_combo_count,
            p.layers[3].wall_combo_count,
            p.layers[4].wall_combo_count,
        ],
    );
    t.wall_slot_count.push(
        [a.slot_count, b.slot_count, c.slot_count, d.slot_count, e.slot_count],
    );
    t.desc_row.push([a.row, b.row, c.row, d.row, e.row]);
    t.desc_col.push([a.col, b.col, c.col, d.col, e.col]);
    t.desc_h.push([a.horizontal, b.horizontal, c.horizontal, d.horizontal, e.horizontal]);
    t.h_pext_mask.push([a.h_mask, b.h_mask, c.h_mask, d.h_mask, e.h_mask]);
    t.v_pext_mask.push([a.v_mask, b.v_mask, c.v_mask, d.v_mask, e.v_mask]);
    t.h_slot_count.push([a.h_count, b.h_count, c.h_count, d.h_count, e.h_count]);
    append_remap(&mut t.remap, &p.layers[0].wall_remap);
    append_remap(&mut t.remap, &p.layers[1].wall_remap);
    append_remap(&mut t.remap, &p.layers[2].wall_remap);
    append_remap(&mut t.remap, &p.layers[3].wall_remap);
    append_remap(&mut t.remap, &p.layers[4].wall_remap);
    proof {
        let now = *t;
        let was = *old(t);
        lemma_new_layer(now, p.layers[0], a, sq as int, 0);
        lemma_new_layer(now, p.layers[1], b, sq as int, 1);
        lemma_new_layer(now, p.layers[2], c, sq as int, 2);
        lemma_new_layer(now, p.layers[3], d, sq as int, 3);
        lemma_new_layer(now, p.layers[4], e, sq as int, 4);
        assert forall|s: int, k: int| 0 <= s < sq + 1 && 0 <= k < 5 implies #[trigger] now.layer_right(
            s,
            k,
        ) by {
            if s < sq {
                assert(was.layer_right(s, k));
                lemma_same_layer(was, now, s, k);
            }
        }
        assert forall|s: int| 0 <= s < sq + 1 implies is_catalog(
            #[trigger] now.catalog@[s]@,
            (s / 9, s % 9),
        ) by {
            if s < sq {
                assert(now.catalog@[s] == was.catalog@[s]);
            }
        }
    }
}

/// What the tables say of a square does not change when others are added.
proof fn lemma_same_layer(a: PawnTables, b: PawnTables, s: int, k: int)
    requires
        0 <= s < 81,
        0 <= k < 5,
        a.layer_right(s, k),
        a.legal@[s] == b.legal@[s],
        a.layer_valid@[s] == b.layer_valid@[s],
        a.wall_combo_count@[s] == b.wall_combo_count@[s],
        a.wall_slot_count@[s] == b.wall_slot_count@[s],
        a.desc_row@[s] == b.desc_row@[s],
        a.desc_col@[s] == b.desc_col@[s],
        a.desc_h@[s] == b.desc_h@[s],
        a.h_pext_mask@[s] == b.h_pext_mask@[s],
        a.v_pext_mask@[s] == b.v_pext_mask@[s],
        a.h_slot_count@[s] == b.h_slot_count@[s],
        remap_base(s, k) + 4096 <= a.remap@.len() <= b.remap@.len(),
        forall|i: int| 0 <= i < a.remap@.len() ==> #[trigger] a.remap@[i] == b.remap@[i],
    ensures
        b.layer_right(s, k),
{
    lemma_combo_counts();
    assert(a.slots(s, k) =~= b.slots(s, k));
    let nw = b.slots(s, k).len();
    if layer_exists((s / 9, s % 9), k) {
        assert forall|p: int| 0 <= p < 1u64 << (nw as u64) implies #[trigger] b.remap@[remap_base(
            s,
            k,
        ) + p] < b.wall_combo_count@[s][k] && is_combo_mask(
            b.legal@[s][k][b.remap@[remap_base(s, k) + p] as int],
            b.slots(s, k),
            p as u64,
            (s / 9, s % 9),
            k,
        ) by {
            assert(a.remap@[remap_base(s, k) + p] == b.remap@[remap_base(s, k) + p]);
        }
    }
}

/// A layer whose rows were copied from a right one is right.
proof fn lemma_new_layer(t: PawnTables, layer: EnemyLayerMeta, row: LayerRow, s: int, k: int)
    requires
        0 <= s < 81,
        0 <= k < 5,
        layer.right_for((s / 9, s % 9), k),
        t.legal@[s][k] == layer.table,
        t.layer_valid@[s][k] == row.valid,
        t.wall_combo_count@[s][k] == layer.wall_combo_count,
        t.wall_slot_count@[s][k] == row.slot_count,
        t.desc_row@[s][k] == row.row,
        t.desc_col@[s][k] == row.col,
        t.desc_h@[s][k] == row.horizontal,
        t.h_pext_mask@[s][k] == row.h_mask,
        t.v_pext_mask@[s][k] == row.v_mask,
        t.h_slot_count@[s][k] == row.h_count,
        forall|i: int|
            0 <= i < layer.wall_remap@.len() ==> #[trigger] t.remap@[remap_base(s, k) + i]
                == layer.wall_remap@[i],
        describes(row, layer),
    ensures
        t.layer_right(s, k),
{
    let walls = t.slots(s, k);
    assert(walls =~= layer.wall_bits@) by {
        assert forall|i: int| 0 <= i < walls.len() implies walls[i] == layer.wall_bits@[i] by {
            assert(row.row@[i] == desc_rows(layer.wall_bits@)[i]);
            assert(row.col@[i] == desc_cols(layer.wall_bits@)[i]);
            assert(row.horizontal@[i] == desc_flags(layer.wall_bits@)[i]);
        }
    }
    assert forall|i: int| 0 <= i < walls.len() implies #[trigger] t.desc_h@[s][k][i] <= 1 by {
        assert(row.horizontal@[i] == desc_flags(layer.wall_bits@)[i]);
    }
    assert forall|i: int| walls.len() <= i < 12 implies #[trigger] t.desc_row@[s][k][i] == 255
        && t.desc_col@[s][k][i] == 255 && t.desc_h@[s][k][i] == 255 by {
        assert(row.row@[i] == desc_rows(layer.wall_bits@)[i]);
        assert(row.col@[i] == desc_cols(layer.wall_bits@)[i]);
        assert(row.horizontal@[i] == desc_flags(layer.wall_bits@)[i]);
    }
    if layer_exists((s / 9, s % 9), k) {
        assert forall|p: int| 0 <= p < 1u64 << (walls.len() as u64) implies #[trigger] t.remap@[remap_base(
            s,
            k,
        ) + p] < t.wall_combo_count@[s][k] && is_combo_mask(
            t.legal@[s][k][t.remap@[remap_base(s, k) + p] as int],
            walls,
            p as u64,
            (s / 9, s % 9),
            k,
        ) by {
            assert(layer.wall_remap@[p] < layer.wall_combo_count);
        }
    }
}

/// Assembles the tables from what was discovered about each square.
pub fn assemble(pawn: &Vec<PawnSquareMeta>) -> (t: PawnTables)
    requires
        pawn@.len() == 81,
        forall|sq: int| 0 <= sq < 81 ==> (#[trigger] pawn@[sq]).right_for(sq),
    ensures
        t.right(),
{
    let mut t: PawnTables = PawnTables {
        catalog: Vec::new(),
        legal: Vec::new(),
        layer_valid: Vec::new(),
        wall_combo_count: Vec::new(),
        wall_slot_count: Vec::new(),
        desc_row: Vec::new(),
        desc_col: Vec::new(),
        desc_h: Vec::new(),
        h_pext_mask: Vec::new(),
        v_pext_mask: Vec::new(),
        h_slot_count: Vec::new(),
        remap: Vec::new(),
    };
    let mut sq: u8 = 0;
    while sq < 81
        invariant
            sq <= 81,
            pawn@.len() == 81,
            forall|k: int| 0 <= k < 81 ==> (#[trigger] pawn@[k]).right_for(k),
            t.right_upto(sq as int),
        decreases 81 - sq,
    {
        push_square(&mut t, &pawn[sq as usize], sq);
        sq = sq + 1;
    }
    t
}

/// Computes the tables; a second or two.
pub fn build_from_discovery() -> (t: PawnTables)
    ensures
        t.right(),
{
    assemble(&discover_all_pawn_tables())
}

} // verus!
