//! Transposition table of node counts: clusters of four slots.
//!
//! A hit needs the 64-bit key, an independent 32-bit signature and the depth
//! to agree. A full cluster gives up its shallowest entry. The table grows at
//! half load and keeps what it holds.

use vstd::prelude::*;

use crate::util::pow::{lemma_two_pow_mod, lemma_two_pow_small, power_of_two, two_pow};

verus! {

/// Slots of a cluster.
pub const TT_CLUSTER: usize = 4;

/// Index bits that an adaptive table starts with.
pub const DEFAULT_START_BITS: usize = 11;

/// Index bits at which an adaptive table stops growing.
pub const DEFAULT_MAX_BITS: usize = 25;

/// A slot; key 0 marks it empty.
#[derive(Clone, Copy)]
pub struct Entry {
    pub key: u64,
    pub nodes: u64,
    pub verify: u32,
    pub depth: u8,
}

#[derive(Clone, Copy)]
pub struct Cluster {
    pub entries: [Entry; 4],
}

/// The entry is one of the position.
pub open spec fn hit(e: Entry, key: u64, verify: u32) -> bool {
    e.key == key && e.verify == verify
}

/// First slot from `i` on that holds the position or is empty; 4 if none.
pub open spec fn stop_at(es: Seq<Entry>, key: u64, verify: u32, i: int) -> int
    decreases 4 - i,
{
    if i >= 4 {
        4
    } else if hit(es[i], key, verify) || es[i].key == 0 {
        i
    } else {
        stop_at(es, key, verify, i + 1)
    }
}

/// First slot of least depth.
pub open spec fn is_shallowest(es: Seq<Entry>, i: int) -> bool {
    &&& 0 <= i < 4
    &&& forall|k: int| 0 <= k < 4 ==> es[i].depth <= #[trigger] es[k].depth
    &&& forall|k: int| 0 <= k < i ==> es[i].depth < #[trigger] es[k].depth
}

/// `out` is the cluster `es` once `x` went in: over an entry of the position
/// that is not deeper, else into an empty slot, else over the shallowest.
pub open spec fn inserted(es: Seq<Entry>, x: Entry, out: Seq<Entry>) -> bool {
    let j = stop_at(es, x.key, x.verify, 0);
    if j < 4 {
        if hit(es[j], x.key, x.verify) && es[j].depth > x.depth {
            out == es
        } else {
            out == es.update(j, x)
        }
    } else {
        exists|i: int| #[trigger] is_shallowest(es, i) && out == es.update(i, x)
    }
}

/// Putting `x` in takes an empty slot.
pub open spec fn fills(es: Seq<Entry>, x: Entry) -> bool {
    let j = stop_at(es, x.key, x.verify, 0);
    j < 4 && !hit(es[j], x.key, x.verify)
}

/// First slot from `i` on that answers; 4 if none.
pub open spec fn answer_at(es: Seq<Entry>, key: u64, verify: u32, depth: u8, i: int) -> int
    decreases 4 - i,
{
    if i >= 4 {
        4
    } else if hit(es[i], key, verify) && es[i].depth == depth {
        i
    } else {
        answer_at(es, key, verify, depth, i + 1)
    }
}

/// What a cluster answers.
pub open spec fn answer(es: Seq<Entry>, key: u64, verify: u32, depth: u8) -> Option<u64> {
    let i = answer_at(es, key, verify, depth, 0);
    if i < 4 {
        Some(es[i].nodes)
    } else {
        None
    }
}

/// Empty slots come last, and no position occurs twice.
pub open spec fn tidy(es: Seq<Entry>) -> bool {
    &&& forall|i: int, k: int|
        0 <= i < k < 4 && (#[trigger] es[k]).key != 0 ==> (#[trigger] es[i]).key != 0
    &&& forall|i: int, k: int|
        0 <= i < k < 4 && es[k].key != 0 && (#[trigger] es[i]).key == (#[trigger] es[k]).key
            ==> es[i].verify != es[k].verify
}

fn blank() -> (c: Cluster)
    ensures
        c.entries@ =~= Seq::new(4, |i: int| Entry { key: 0, nodes: 0, verify: 0, depth: 0 }),
{
    let e: Entry = Entry { key: 0, nodes: 0, verify: 0, depth: 0 };
    Cluster { entries: [e, e, e, e] }
}

/// An empty cluster.
pub open spec fn is_blank(c: Cluster) -> bool {
    forall|i: int|
        0 <= i < 4 ==> #[trigger] c.entries[i] == (Entry { key: 0, nodes: 0, verify: 0, depth: 0 })
}

/// Inserts into a cluster; whether that took an empty slot.
fn insert_into(c: &mut Cluster, x: Entry) -> (r: bool)
    ensures
        inserted(old(c).entries@, x, final(c).entries@),
        r == fills(old(c).entries@, x),
{
    let mut replace: usize = 0;
    let mut shallowest: u8 = 255;
    let mut i: usize = 0;
    let ghost es = c.entries@;
    while i < 4
        invariant
            i <= 4,
            replace < 4,
            es == old(c).entries@,
            es == c.entries@,
            es.len() == 4,
            stop_at(es, x.key, x.verify, 0) == stop_at(es, x.key, x.verify, i as int),
            forall|k: int| 0 <= k < i ==> shallowest <= #[trigger] es[k].depth,
            i == 0 || shallowest == 255 ==> replace == 0,
            i == 0 ==> shallowest == 255,
            i > 0 ==> replace < i && es[replace as int].depth == shallowest,
            forall|k: int| 0 <= k < replace ==> shallowest < #[trigger] es[k].depth,
        decreases 4 - i,
    {
        let e: Entry = c.entries[i];
        assert(e == es[i as int]);
        if e.key == x.key && e.verify == x.verify {
            if e.depth <= x.depth {
                c.entries[i] = x;
            }
            return false;
        }
        if e.key == 0 {
            c.entries[i] = x;
            return true;
        }
        if e.depth < shallowest {
            shallowest = e.depth;
            replace = i;
        }
        i = i + 1;
    }
    assert(is_shallowest(es, replace as int));
    c.entries[replace] = x;
    false
}

pub struct TranspositionTable {
    pub clusters: Vec<Cluster>,
    pub bits: usize,
    /// Slots taken.
    pub filled: usize,
    pub max_bits: usize,
    /// Whether the table grows.
    pub adaptive: bool,
}

impl TranspositionTable {
    /// The cluster of a key.
    pub open spec fn cluster(self, key: u64) -> Seq<Entry> {
        self.clusters[key as int % self.clusters@.len() as int].entries@
    }

    pub open spec fn wf(self) -> bool {
        &&& self.bits <= self.max_bits <= 27
        &&& self.clusters@.len() == two_pow(self.bits as nat)
        &&& forall|i: int, k: int|
            0 <= i < self.clusters@.len() && 0 <= k < 4 && #[trigger] self.clusters[i].entries[k].key
                != 0 ==> self.clusters[i].entries[k].key as int % self.clusters@.len() as int == i
    }

    /// Every cluster is tidy. Storing keys other than 0 keeps that.
    pub open spec fn all_tidy(self) -> bool {
        forall|i: int| 0 <= i < self.clusters@.len() ==> #[trigger] tidy(self.clusters[i].entries@)
    }

    /// The table holds a deeper entry of the position.
    pub open spec fn holds_deeper(self, key: u64, verify: u32, depth: u8) -> bool {
        exists|k: int|
            0 <= k < 4 && hit(#[trigger] self.cluster(key)[k], key, verify) && self.cluster(
                key,
            )[k].depth > depth
    }

    /// Storing `x` makes the table grow: it takes an empty slot and half of
    /// all slots are then taken.
    pub open spec fn grows_on(self, x: Entry) -> bool {
        &&& fills(self.cluster(x.key), x)
        &&& self.adaptive
        &&& self.bits < self.max_bits
        &&& self.filled + 1 >= 2 * self.clusters@.len()
    }

    /// Index bits after growing.
    pub open spec fn grown_bits(self) -> int {
        let step = if self.bits < 14 {
            3int
        } else if self.bits < 18 {
            2int
        } else {
            1int
        };
        if self.bits + step <= self.max_bits {
            self.bits + step
        } else {
            self.max_bits as int
        }
    }

    /// What the table answers.
    pub open spec fn answers(self, key: u64, verify: u32, depth: u8) -> Option<u64> {
        answer(self.cluster(key), key, verify, depth)
    }

    /// A table with pinned index bits, or one that grows from a start to a
    /// limit; bits outside `8..=27` count as not given.
    pub fn new(pinned: Option<usize>, start: Option<usize>, max: Option<usize>) -> (t: Self)
        ensures
            t.wf(),
            t.all_tidy(),
            forall|i: int| 0 <= i < t.clusters@.len() ==> is_blank(#[trigger] t.clusters[i]),
            t.filled == 0,
            bits_given(pinned) is Some ==> t.bits == bits_given(pinned)->0 && t.max_bits == t.bits
                && !t.adaptive,
            bits_given(pinned) is None ==> t.adaptive && t.bits == (match bits_given(start) {
                Some(b) => b,
                None => DEFAULT_START_BITS,
            }) && t.max_bits == (match bits_given(max) {
                Some(b) => if b >= t.bits {
                    b
                } else {
                    t.bits
                },
                None => if DEFAULT_MAX_BITS >= t.bits {
                    DEFAULT_MAX_BITS
                } else {
                    t.bits
                },
            }),
    {
        if let Some(bits) = env_bits(pinned) {
            return Self::with_size(bits, bits, false);
        }
        let start: usize = match env_bits(start) {
            Some(b) => b,
            None => DEFAULT_START_BITS,
        };
        let limit: usize = match env_bits(max) {
            Some(b) => b,
            None => DEFAULT_MAX_BITS,
        };
        let max_bits: usize = if limit >= start {
            limit
        } else {
            start
        };
        Self::with_size(start, max_bits, true)
    }

    fn with_size(bits: usize, max_bits: usize, adaptive: bool) -> (t: Self)
        requires
            bits <= max_bits <= 27,
        ensures
            t.wf(),
            t.all_tidy(),
            forall|i: int| 0 <= i < t.clusters@.len() ==> is_blank(#[trigger] t.clusters[i]),
            t.filled == 0,
            t.bits == bits,
            t.max_bits == max_bits,
            t.adaptive == adaptive,
    {
        let size: usize = power_of_two(bits);
        let t: TranspositionTable = TranspositionTable {
            clusters: vec![blank(); size],
            bits,
            filled: 0,
            max_bits,
            adaptive,
        };
        assert forall|i: int| 0 <= i < t.clusters@.len() implies is_blank(
            #[trigger] t.clusters[i],
        ) by {}
        assert forall|i: int| 0 <= i < t.clusters@.len() implies #[trigger] tidy(
            t.clusters[i].entries@,
        ) by {
            assert(is_blank(t.clusters[i]));
        }
        assert forall|i: int, k: int|
            0 <= i < t.clusters@.len() && 0 <= k < 4 implies #[trigger] t.clusters[i].entries[k].key
            == 0 by {
            assert(is_blank(t.clusters[i]));
        }
        t
    }
}

impl Default for TranspositionTable {
    fn default() -> (t: Self)
        ensures
            t.wf(),
            t.all_tidy(),
            forall|i: int| 0 <= i < t.clusters@.len() ==> is_blank(#[trigger] t.clusters[i]),
            t.filled == 0,
            t.bits == DEFAULT_START_BITS,
            t.max_bits == DEFAULT_MAX_BITS,
            t.adaptive,
    {
        TranspositionTable::new(None, None, None)
    }
}

/// A slot that stops the search and none before it does.
proof fn lemma_stop(es: Seq<Entry>, key: u64, verify: u32, i: int, n: int)
    requires
        0 <= i <= n <= 4,
        forall|t: int| i <= t < n ==> !hit(#[trigger] es[t], key, verify) && es[t].key != 0,
        n < 4 ==> hit(es[n], key, verify) || es[n].key == 0,
    ensures
        stop_at(es, key, verify, i) == n,
    decreases n - i,
{
    if i < n {
        lemma_stop(es, key, verify, i + 1, n);
    }
}

/// Where the search stops, and that it did not stop before.
proof fn lemma_stop_at(es: Seq<Entry>, key: u64, verify: u32, i: int)
    requires
        0 <= i <= 4,
    ensures
        i <= stop_at(es, key, verify, i) <= 4,
        forall|t: int|
            i <= t < stop_at(es, key, verify, i) ==> !hit(#[trigger] es[t], key, verify)
                && es[t].key != 0,
        stop_at(es, key, verify, i) < 4 ==> hit(es[stop_at(es, key, verify, i)], key, verify)
            || es[stop_at(es, key, verify, i)].key == 0,
    decreases 4 - i,
{
    if i < 4 && !(hit(es[i], key, verify) || es[i].key == 0) {
        lemma_stop_at(es, key, verify, i + 1);
    }
}

/// Which slot answers.
proof fn lemma_answer_at(es: Seq<Entry>, key: u64, verify: u32, depth: u8, i: int)
    requires
        0 <= i <= 4,
    ensures
        i <= answer_at(es, key, verify, depth, i) <= 4,
        forall|t: int|
            i <= t < answer_at(es, key, verify, depth, i) ==> !(hit(#[trigger] es[t], key, verify)
                && es[t].depth == depth),
        answer_at(es, key, verify, depth, i) < 4 ==> hit(
            es[answer_at(es, key, verify, depth, i)],
            key,
            verify,
        ) && es[answer_at(es, key, verify, depth, i)].depth == depth,
    decreases 4 - i,
{
    if i < 4 && !(hit(es[i], key, verify) && es[i].depth == depth) {
        lemma_answer_at(es, key, verify, depth, i + 1);
    }
}

/// Inserting a nonzero key keeps a cluster tidy.
proof fn lemma_insert_tidy(es: Seq<Entry>, x: Entry, out: Seq<Entry>)
    requires
        es.len() == 4,
        tidy(es),
        x.key != 0,
        inserted(es, x, out),
    ensures
        out.len() == 4,
        tidy(out),
{
    lemma_stop_at(es, x.key, x.verify, 0);
    let j = stop_at(es, x.key, x.verify, 0);
    if j == 4 {
        let i = choose|i: int| #[trigger] is_shallowest(es, i) && out == es.update(i, x);
        assert forall|a: int, b: int|
            0 <= a < b < 4 && out[b].key != 0 && (#[trigger] out[a]).key == (#[trigger] out[b]).key
            implies out[a].verify != out[b].verify by {
            assert(!hit(es[a], x.key, x.verify));
            assert(!hit(es[b], x.key, x.verify));
            if a != i && b != i {
                assert(es[a] == out[a] && es[b] == out[b]);
            }
        }
        assert forall|a: int, b: int|
            0 <= a < b < 4 && (#[trigger] out[b]).key != 0 implies (#[trigger] out[a]).key != 0 by {
            assert(es[a].key != 0);
        }
    } else if out != es {
        assert forall|a: int, b: int|
            0 <= a < b < 4 && out[b].key != 0 && (#[trigger] out[a]).key == (#[trigger] out[b]).key
            implies out[a].verify != out[b].verify by {
            if a != j && b != j {
                assert(es[a] == out[a] && es[b] == out[b]);
            } else if b == j {
                assert(!hit(es[a], x.key, x.verify));
            } else {
                assert(out[b] == es[b]);
                if es[j].key != 0 {
                    assert(es[j].key == es[b].key ==> es[j].verify != es[b].verify);
                }
            }
        }
        assert forall|a: int, b: int|
            0 <= a < b < 4 && (#[trigger] out[b]).key != 0 implies (#[trigger] out[a]).key != 0 by {
            if b == j {
                assert(es[a].key != 0);
            } else if a != j {
                assert(es[a] == out[a] && es[b] == out[b]);
            }
        }
    }
}

/// In a tidy cluster a fresh entry answers at once.
proof fn lemma_insert_answers(es: Seq<Entry>, x: Entry, out: Seq<Entry>)
    requires
        es.len() == 4,
        tidy(es),
        x.key != 0,
        inserted(es, x, out),
        forall|k: int| 0 <= k < 4 && hit(#[trigger] es[k], x.key, x.verify) ==> es[k].depth <= x.depth,
    ensures
        answer(out, x.key, x.verify, x.depth) == Some(x.nodes),
{
    lemma_stop_at(es, x.key, x.verify, 0);
    lemma_insert_tidy(es, x, out);
    let j = stop_at(es, x.key, x.verify, 0);
    let at = if j < 4 {
        j
    } else {
        choose|i: int| #[trigger] is_shallowest(es, i) && out == es.update(i, x)
    };
    assert(out[at] == x);
    lemma_answer_at(out, x.key, x.verify, x.depth, 0);
    let a = answer_at(out, x.key, x.verify, x.depth, 0);
    assert(hit(out[at], x.key, x.verify) && out[at].depth == x.depth);
    assert(a <= at);
    if a < at {
        assert(out[a].key == out[at].key);
        assert(out[a].verify == out[at].verify);
    }
}

// --- growing ---

pub open spec fn empty_entry() -> Entry {
    Entry { key: 0, nodes: 0, verify: 0, depth: 0 }
}

/// Of the first `k` entries those of cluster `j` in a table of `len`.
spec fn kept(es: Seq<Entry>, len: int, j: int, k: int) -> Seq<Entry>
    decreases k,
{
    if k <= 0 {
        Seq::empty()
    } else {
        let p = kept(es, len, j, k - 1);
        let e = es[k - 1];
        if e.key != 0 && e.key as int % len == j {
            p.push(e)
        } else {
            p
        }
    }
}

proof fn lemma_kept(es: Seq<Entry>, len: int, j: int, k: int)
    requires
        0 <= k <= 4,
    ensures
        kept(es, len, j, k).len() <= k,
        forall|t: int|
            0 <= t < kept(es, len, j, k).len() ==> exists|i: int|
                0 <= i < k && #[trigger] es[i] == #[trigger] kept(es, len, j, k)[t] && es[i].key != 0
                    && es[i].key as int % len == j,
        forall|i: int|
            0 <= i < k && (#[trigger] es[i]).key != 0 && es[i].key as int % len == j ==> exists|t: int|
                0 <= t < kept(es, len, j, k).len() && #[trigger] kept(es, len, j, k)[t] == es[i],
    decreases k,
{
    if k > 0 {
        lemma_kept(es, len, j, k - 1);
        let p = kept(es, len, j, k - 1);
        let q = kept(es, len, j, k);
        assert forall|t: int| 0 <= t < q.len() implies exists|i: int|
            0 <= i < k && #[trigger] es[i] == #[trigger] q[t] && es[i].key != 0 && es[i].key as int
                % len == j by {
            if t < p.len() {
                assert(q[t] == p[t]);
                let i = choose|i: int|
                    0 <= i < k - 1 && #[trigger] es[i] == p[t] && es[i].key != 0 && es[i].key as int
                        % len == j;
                assert(es[i] == q[t]);
            } else {
                assert(es[k - 1] == q[t]);
            }
        }
        assert forall|i: int|
            0 <= i < k && (#[trigger] es[i]).key != 0 && es[i].key as int % len == j implies exists|
            t: int,
        | 0 <= t < q.len() && #[trigger] q[t] == es[i] by {
            if i < k - 1 {
                let t = choose|t: int| 0 <= t < p.len() && #[trigger] p[t] == es[i];
                assert(q[t] == es[i]);
            } else {
                assert(q[p.len() as int] == es[i]);
            }
        }
    }
}

/// The cluster holds `p`, then nothing.
spec fn padded(c: Seq<Entry>, p: Seq<Entry>) -> bool {
    &&& c.len() == 4
    &&& p.len() <= 4
    &&& forall|t: int| 0 <= t < p.len() ==> #[trigger] c[t] == p[t]
    &&& forall|t: int| p.len() <= t < 4 ==> #[trigger] c[t] == empty_entry()
}

/// Taking over the next entry of a tidy cluster appends it.
proof fn lemma_take_over(es: Seq<Entry>, len: int, j: int, k: int, c: Seq<Entry>, out: Seq<Entry>)
    requires
        es.len() == 4,
        tidy(es),
        0 <= k < 4,
        es[k].key != 0,
        es[k].key as int % len == j,
        padded(c, kept(es, len, j, k)),
        inserted(c, es[k], out),
    ensures
        padded(out, kept(es, len, j, k + 1)),
{
    let p = kept(es, len, j, k);
    let x = es[k];
    lemma_kept(es, len, j, k);
    assert forall|t: int| 0 <= t < p.len() implies !hit(#[trigger] c[t], x.key, x.verify) && c[t].key
        != 0 by {
        assert(c[t] == p[t]);
        let i = choose|i: int| 0 <= i < k && #[trigger] es[i] == p[t] && es[i].key != 0;
        assert(es[i].key == es[k].key ==> es[i].verify != es[k].verify);
    }
    assert(c[p.len() as int] == empty_entry());
    lemma_stop(c, x.key, x.verify, 0, p.len() as int);
    assert(kept(es, len, j, k + 1) == p.push(x));
    assert(out == c.update(p.len() as int, x));
}

/// What a tidy cluster answers, its share in a larger table answers too.
proof fn lemma_share_answers(
    es: Seq<Entry>,
    len: int,
    c: Seq<Entry>,
    key: u64,
    verify: u32,
    depth: u8,
)
    requires
        es.len() == 4,
        tidy(es),
        key != 0,
        padded(c, kept(es, len, key as int % len, 4)),
    ensures
        answer(c, key, verify, depth) == answer(es, key, verify, depth),
{
    let j = key as int % len;
    let p = kept(es, len, j, 4);
    lemma_kept(es, len, j, 4);
    lemma_answer_at(es, key, verify, depth, 0);
    lemma_answer_at(c, key, verify, depth, 0);
    let a = answer_at(es, key, verify, depth, 0);
    let b = answer_at(c, key, verify, depth, 0);
    if a < 4 {
        let t = choose|t: int| 0 <= t < p.len() && #[trigger] p[t] == es[a];
        assert(c[t] == es[a]);
        assert(hit(c[t], key, verify));
        assert(b <= t);
    }
    if b < 4 {
        assert(c[b].key != 0);
        assert(b < p.len());
        assert(c[b] == p[b]);
        let i = choose|i: int| 0 <= i < 4 && #[trigger] es[i] == p[b] && es[i].key != 0;
        assert(hit(es[i], key, verify) && es[i].depth == depth);
        assert(a <= i);
        if a < i {
            assert(es[a].key == es[i].key);
        }
    }
}

/// No position occurs twice in a share.
proof fn lemma_kept_distinct(es: Seq<Entry>, len: int, j: int, k: int, a: int, b: int)
    requires
        es.len() == 4,
        tidy(es),
        0 <= k <= 4,
        0 <= a < b < kept(es, len, j, k).len(),
    ensures
        !hit(kept(es, len, j, k)[a], kept(es, len, j, k)[b].key, kept(es, len, j, k)[b].verify),
    decreases k,
{
    if k > 0 {
        let q = kept(es, len, j, k - 1);
        if b < q.len() {
            lemma_kept_distinct(es, len, j, k - 1, a, b);
        } else {
            lemma_kept(es, len, j, k - 1);
            let i = choose|i: int| 0 <= i < k - 1 && #[trigger] es[i] == q[a] && es[i].key != 0;
            assert(es[i].key == es[k - 1].key ==> es[i].verify != es[k - 1].verify);
        }
    }
}

/// A share of a tidy cluster is tidy.
proof fn lemma_share_tidy(es: Seq<Entry>, len: int, j: int, k: int, c: Seq<Entry>)
    requires
        es.len() == 4,
        tidy(es),
        0 <= k <= 4,
        padded(c, kept(es, len, j, k)),
    ensures
        tidy(c),
        forall|t: int| 0 <= t < 4 && (#[trigger] c[t]).key != 0 ==> c[t].key as int % len == j,
{
    let p = kept(es, len, j, k);
    assert forall|t: int| 0 <= t < p.len() implies (#[trigger] c[t]).key != 0 && c[t].key as int % len
        == j by {
        lemma_kept(es, len, j, k);
        assert(c[t] == p[t]);
        let i = choose|i: int|
            0 <= i < k && #[trigger] es[i] == p[t] && es[i].key != 0 && es[i].key as int % len == j;
    }
    assert forall|a: int, b: int|
        0 <= a < b < 4 && c[b].key != 0 && (#[trigger] c[a]).key == (#[trigger] c[b]).key implies c[a].verify
        != c[b].verify by {
        lemma_kept_distinct(es, len, j, k, a, b);
    }
}

impl TranspositionTable {
    /// Forgets everything.
    pub fn clear(&mut self)
        requires
            old(self).wf(),
        ensures
            final(self).wf(),
            final(self).all_tidy(),
            final(self).clusters@.len() == old(self).clusters@.len(),
            forall|i: int|
                0 <= i < final(self).clusters@.len() ==> is_blank(#[trigger] final(self).clusters[i]),
            final(self).filled == 0,
            final(self).bits == old(self).bits,
            final(self).max_bits == old(self).max_bits,
            final(self).adaptive == old(self).adaptive,
    {
        *self = Self::with_size(self.bits, self.max_bits, self.adaptive);
    }

    /// The node count stored for the position at the depth.
    pub fn probe(&self, key: u64, verify: u32, depth: u8) -> (r: Option<u64>)
        requires
            self.wf(),
        ensures
            r == self.answers(key, verify, depth),
    {
        proof {
            lemma_two_pow_small(self.bits as nat);
        }
        let at: usize = (key % (self.clusters.len() as u64)) as usize;
        let mut i: usize = 0;
        while i < 4
            invariant
                i <= 4,
                self.wf(),
                at < self.clusters@.len(),
                at == key as int % self.clusters@.len() as int,
                answer_at(self.cluster(key), key, verify, depth, 0) == answer_at(
                    self.cluster(key),
                    key,
                    verify,
                    depth,
                    i as int,
                ),
            decreases 4 - i,
        {
            let e: Entry = self.clusters[at].entries[i];
            if e.key == key && e.verify == verify && e.depth == depth {
                return Some(e.nodes);
            }
            i = i + 1;
        }
        None
    }

    /// Stores the node count of a position at a depth. An entry that is deeper
    /// stays; the table grows where that takes the last slot of its lower half.
    pub fn store(&mut self, key: u64, verify: u32, depth: u8, nodes: u64)
        requires
            old(self).wf(),
        ensures
            final(self).wf(),
            final(self).max_bits == old(self).max_bits,
            final(self).adaptive == old(self).adaptive,
            final(self).filled == (if fills(
                old(self).cluster(key),
                (Entry { key, nodes, verify, depth }),
            ) && old(self).filled < usize::MAX {
                old(self).filled + 1
            } else {
                old(self).filled as int
            }),
            !old(self).grows_on((Entry { key, nodes, verify, depth })) ==> {
                &&& final(self).bits == old(self).bits
                &&& final(self).clusters@.len() == old(self).clusters@.len()
                &&& inserted(
                    old(self).cluster(key),
                    (Entry { key, nodes, verify, depth }),
                    final(self).cluster(key),
                )
                &&& forall|i: int|
                    0 <= i < old(self).clusters@.len() && i != key as int
                        % old(self).clusters@.len() as int ==> #[trigger] final(self).clusters[i]
                        == old(self).clusters[i]
            },
            old(self).grows_on((Entry { key, nodes, verify, depth })) ==> final(self).bits
                == old(self).grown_bits(),
            old(self).all_tidy() && key != 0 ==> final(self).all_tidy(),
            old(self).all_tidy() && key != 0 && !old(self).holds_deeper(key, verify, depth)
                ==> final(self).answers(key, verify, depth) == Some(nodes),
            old(self).all_tidy() && key != 0 && old(self).grows_on(
                (Entry { key, nodes, verify, depth }),
            ) ==> forall|k: u64, v: u32, d: u8|
                k != 0 && !(k == key && v == verify) ==> #[trigger] final(self).answers(k, v, d)
                    == old(self).answers(k, v, d),
    {
        let x: Entry = Entry { key, nodes, verify, depth };
        proof {
            lemma_two_pow_small(self.bits as nat);
        }
        let at: usize = (key % (self.clusters.len() as u64)) as usize;
        let mut c: Cluster = self.clusters[at];
        let took: bool = insert_into(&mut c, x);
        self.clusters.set(at, c);
        proof {
            lemma_stored(*old(self), x, *self);
        }
        if took {
            self.filled = self.filled.saturating_add(1);
            if self.should_grow() {
                let ghost mid = *self;
                self.grow();
                proof {
                    lemma_grown(*old(self), x, mid, *self);
                }
            }
        }
    }

    /// Whether half of all slots are taken in a table that may grow.
    #[inline]
    fn should_grow(&self) -> (r: bool)
        requires
            self.wf(),
        ensures
            r == (self.adaptive && self.bits < self.max_bits && self.filled >= 2
                * self.clusters@.len()),
    {
        proof {
            lemma_two_pow_small(self.bits as nat);
        }
        self.adaptive && self.bits < self.max_bits && self.filled >= self.clusters.len() * 2
    }

    /// Bits that the next growth adds: many while the table is small.
    #[inline]
    fn grow_step(&self) -> (r: usize)
        ensures
            r == (if self.bits < 14 {
                3int
            } else if self.bits < 18 {
                2int
            } else {
                1int
            }),
    {
        if self.bits < 14 {
            3
        } else if self.bits < 18 {
            2
        } else {
            1
        }
    }

    /// Grows and takes every entry over.
    fn grow(&mut self)
        requires
            old(self).wf(),
            old(self).bits < old(self).max_bits,
        ensures
            final(self).wf(),
            final(self).bits == old(self).grown_bits(),
            final(self).filled == old(self).filled,
            final(self).max_bits == old(self).max_bits,
            final(self).adaptive == old(self).adaptive,
            old(self).all_tidy() ==> final(self).all_tidy(),
            old(self).all_tidy() ==> forall|k: u64, v: u32, d: u8|
                k != 0 ==> #[trigger] final(self).answers(k, v, d) == old(self).answers(k, v, d),
    {
        let step: usize = self.grow_step();
        let new_bits: usize = if self.bits + step <= self.max_bits {
            self.bits + step
        } else {
            self.max_bits
        };
        let mut next: TranspositionTable = Self::with_size(new_bits, self.max_bits, self.adaptive);
        let len: usize = next.clusters.len();
        let n: usize = self.clusters.len();
        proof {
            lemma_two_pow_small(new_bits as nat);
            lemma_two_pow_small(self.bits as nat);
            assert forall|j: int| 0 <= j < len implies #[trigger] shares(*self, next, j, 0, 0) by {
                assert(is_blank(next.clusters[j]));
                assert(next.clusters[j].entries[0] == empty_entry());
            }
        }
        let mut i: usize = 0;
        while i < n
            invariant
                i <= n,
                n == self.clusters@.len(),
                len == next.clusters@.len(),
                self.wf(),
                next.wf(),
                next.bits == new_bits,
                self.bits <= new_bits,
                len == two_pow(new_bits as nat),
                1 <= len <= 0x8000_0000,
                self == old(self),
                next.max_bits == self.max_bits,
                next.adaptive == self.adaptive,
                self.all_tidy() ==> forall|j: int|
                    0 <= j < len ==> #[trigger] shares(*self, next, j, i as int, 0),
            decreases n - i,
        {
            let c: Cluster = self.clusters[i];
            let mut k: usize = 0;
            while k < 4
                invariant
                    k <= 4,
                    i < n,
                    n == self.clusters@.len(),
                    len == next.clusters@.len(),
                    self.wf(),
                    next.wf(),
                    next.bits == new_bits,
                    self.bits <= new_bits,
                    len == two_pow(new_bits as nat),
                    1 <= len <= 0x8000_0000,
                    c == self.clusters[i as int],
                    next.max_bits == self.max_bits,
                    next.adaptive == self.adaptive,
                    self.all_tidy() ==> forall|j: int|
                        0 <= j < len ==> #[trigger] shares(*self, next, j, i as int, k as int),
                decreases 4 - k,
            {
                let e: Entry = c.entries[k];
                let ghost before = next;
                if e.key != 0 {
                    let at: usize = (e.key % (len as u64)) as usize;
                    let mut d: Cluster = next.clusters[at];
                    let took: bool = insert_into(&mut d, e);
                    next.clusters.set(at, d);
                    proof {
                        lemma_placed(before, e, next, at as int);
                    }
                }
                proof {
                    if self.all_tidy() {
                        assert forall|j: int| 0 <= j < len implies #[trigger] shares(
                            *self,
                            next,
                            j,
                            i as int,
                            k + 1,
                        ) by {
                            assert(shares(*self, before, j, i as int, k as int));
                            lemma_share_step(*self, before, next, j, i as int, k as int);
                        }
                    }
                }
                k = k + 1;
            }
            proof {
                if self.all_tidy() {
                    assert forall|j: int| 0 <= j < len implies #[trigger] shares(
                        *self,
                        next,
                        j,
                        i + 1,
                        0,
                    ) by {
                        assert(shares(*self, next, j, i as int, 4));
                    }
                }
            }
            i = i + 1;
        }
        self.clusters = next.clusters;
        self.bits = new_bits;
        proof {
            if old(self).all_tidy() {
                assert forall|j: int| 0 <= j < len implies #[trigger] tidy(
                    self.clusters[j].entries@,
                ) by {
                    assert(shares(*old(self), next, j, n as int, 0));
                    let from = j % n as int;
                    assert(tidy(old(self).clusters[from].entries@));
                    lemma_share_tidy(
                        old(self).clusters[from].entries@,
                        len as int,
                        j,
                        4,
                        self.clusters[j].entries@,
                    );
                }
                assert forall|k: u64, v: u32, d: u8| k != 0 implies #[trigger] self.answers(k, v, d)
                    == old(self).answers(k, v, d) by {
                    let j = k as int % len as int;
                    assert(shares(*old(self), next, j, n as int, 0));
                    lemma_two_pow_mod(k as int, old(self).bits as nat, new_bits as nat);
                    let from = j % n as int;
                    assert(from == k as int % n as int);
                    assert(tidy(old(self).clusters[from].entries@));
                    lemma_share_answers(
                        old(self).clusters[from].entries@,
                        len as int,
                        self.clusters[j].entries@,
                        k,
                        v,
                        d,
                    );
                }
            }
        }
    }
}

/// Cluster `j` of the larger table holds its share of the clusters before `i`
/// and of the first `k` entries of cluster `i`.
spec fn shares(
    small: TranspositionTable,
    large: TranspositionTable,
    j: int,
    i: int,
    k: int,
) -> bool {
    let from = j % small.clusters@.len() as int;
    padded(
        large.clusters[j].entries@,
        kept(
            small.clusters[from].entries@,
            large.clusters@.len() as int,
            j,
            if from < i {
                4
            } else if from == i {
                k
            } else {
                0
            },
        ),
    )
}

/// One more entry taken over, seen from cluster `j`.
proof fn lemma_share_step(
    small: TranspositionTable,
    before: TranspositionTable,
    after: TranspositionTable,
    j: int,
    i: int,
    k: int,
)
    requires
        small.wf(),
        small.all_tidy(),
        small.bits <= before.bits,
        before.bits <= 27,
        before.clusters@.len() == two_pow(before.bits as nat),
        after.clusters@.len() == before.clusters@.len(),
        0 <= j < before.clusters@.len(),
        0 <= i < small.clusters@.len(),
        0 <= k < 4,
        shares(small, before, j, i, k),
        ({
            let e = small.clusters[i].entries[k];
            let at = e.key as int % before.clusters@.len() as int;
            if e.key == 0 {
                after == before
            } else {
                &&& inserted(before.clusters[at].entries@, e, after.clusters[at].entries@)
                &&& j != at ==> after.clusters[j] == before.clusters[j]
            }
        }),
    ensures
        shares(small, after, j, i, k + 1),
{
    let n = small.clusters@.len() as int;
    let len = before.clusters@.len() as int;
    lemma_two_pow_small(small.bits as nat);
    lemma_two_pow_small(before.bits as nat);
    let e = small.clusters[i].entries[k];
    let from = j % n;
    let es = small.clusters[from].entries@;
    assert(tidy(es));
    if e.key != 0 {
        let at = e.key as int % len;
        lemma_two_pow_mod(e.key as int, small.bits as nat, before.bits as nat);
        assert(e.key as int % n == i);
        assert(at % n == i);
        if j == at {
            lemma_take_over(
                es,
                len,
                j,
                k,
                before.clusters[j].entries@,
                after.clusters[j].entries@,
            );
        }
    }
}

/// Putting an entry of its own cluster keeps a table well formed.
proof fn lemma_placed(before: TranspositionTable, x: Entry, after: TranspositionTable, at: int)
    requires
        before.wf(),
        at == x.key as int % before.clusters@.len() as int,
        0 <= at < before.clusters@.len(),
        after.bits == before.bits,
        after.max_bits == before.max_bits,
        after.clusters@ == before.clusters@.update(at, after.clusters[at]),
        inserted(before.clusters[at].entries@, x, after.clusters[at].entries@),
    ensures
        after.wf(),
{
    let es = before.clusters[at].entries@;
    lemma_stop_at(es, x.key, x.verify, 0);
    assert forall|i: int, k: int|
        0 <= i < after.clusters@.len() && 0 <= k < 4 && #[trigger] after.clusters[i].entries[k].key
            != 0 implies after.clusters[i].entries[k].key as int % after.clusters@.len() as int == i by {
        if i == at {
            let out = after.clusters[at].entries@;
            assert(out[k] == es[k] || out[k] == x);
            assert(before.clusters[i].entries[k] == es[k]);
        } else {
            assert(after.clusters[i] == before.clusters[i]);
            assert(before.clusters[i].entries[k].key != 0);
        }
    }
}

/// What storing an entry changes before the table grows.
proof fn lemma_stored(before: TranspositionTable, x: Entry, after: TranspositionTable)
    requires
        before.wf(),
        after.bits == before.bits,
        after.max_bits == before.max_bits,
        ({
            let at = x.key as int % before.clusters@.len() as int;
            &&& after.clusters@ == before.clusters@.update(at, after.clusters[at])
            &&& inserted(before.clusters[at].entries@, x, after.clusters[at].entries@)
        }),
    ensures
        after.wf(),
        before.all_tidy() && x.key != 0 ==> after.all_tidy(),
        before.all_tidy() && x.key != 0 && !before.holds_deeper(x.key, x.verify, x.depth)
            ==> after.answers(x.key, x.verify, x.depth) == Some(x.nodes),
{
    lemma_two_pow_small(before.bits as nat);
    let at = x.key as int % before.clusters@.len() as int;
    lemma_placed(before, x, after, at);
    let es = before.clusters[at].entries@;
    let out = after.clusters[at].entries@;
    if before.all_tidy() && x.key != 0 {
        assert(tidy(es));
        lemma_insert_tidy(es, x, out);
        assert forall|i: int| 0 <= i < after.clusters@.len() implies #[trigger] tidy(
            after.clusters[i].entries@,
        ) by {
            if i != at {
                assert(tidy(before.clusters[i].entries@));
            }
        }
        if !before.holds_deeper(x.key, x.verify, x.depth) {
            assert forall|k: int| 0 <= k < 4 && hit(#[trigger] es[k], x.key, x.verify) implies es[k].depth
                <= x.depth by {
                assert(es[k] == before.cluster(x.key)[k]);
            }
            lemma_insert_answers(es, x, out);
        }
    }
}

/// What a table that grew answers.
proof fn lemma_grown(
    before: TranspositionTable,
    x: Entry,
    mid: TranspositionTable,
    after: TranspositionTable,
)
    requires
        before.wf(),
        mid.bits == before.bits,
        ({
            let at = x.key as int % before.clusters@.len() as int;
            &&& mid.clusters@ == before.clusters@.update(at, mid.clusters[at])
            &&& inserted(before.clusters[at].entries@, x, mid.clusters[at].entries@)
        }),
        fills(before.cluster(x.key), x),
        before.all_tidy() ==> mid.all_tidy() || x.key == 0,
        mid.all_tidy() ==> forall|k: u64, v: u32, d: u8|
            k != 0 ==> #[trigger] after.answers(k, v, d) == mid.answers(k, v, d),
    ensures
        before.all_tidy() && x.key != 0 ==> forall|k: u64, v: u32, d: u8|
            k != 0 && !(k == x.key && v == x.verify) ==> #[trigger] after.answers(k, v, d)
                == before.answers(k, v, d),
{
    lemma_two_pow_small(before.bits as nat);
    let at = x.key as int % before.clusters@.len() as int;
    let es = before.clusters[at].entries@;
    let out = mid.clusters[at].entries@;
    if before.all_tidy() && x.key != 0 {
        assert forall|k: u64, v: u32, d: u8|
            k != 0 && !(k == x.key && v == x.verify) implies #[trigger] after.answers(k, v, d)
            == before.answers(k, v, d) by {
            assert(after.answers(k, v, d) == mid.answers(k, v, d));
            let i = k as int % before.clusters@.len() as int;
            if i == at {
                lemma_stop_at(es, x.key, x.verify, 0);
                let j = stop_at(es, x.key, x.verify, 0);
                assert(out == es.update(j, x));
                lemma_answer_at(es, k, v, d, 0);
                lemma_answer_at(out, k, v, d, 0);
                assert(!hit(es[j], k, v));
                assert(!hit(out[j], k, v));
                let a = answer_at(es, k, v, d, 0);
                let b = answer_at(out, k, v, d, 0);
                if a < 4 {
                    assert(out[a] == es[a]);
                    assert(b <= a);
                }
                if b < 4 {
                    assert(out[b] == es[b]);
                    assert(a <= b);
                }
            } else {
                assert(mid.clusters[i] == before.clusters[i]);
            }
        }
    }
}

/// Index bits that count as given.
pub open spec fn bits_given(b: Option<usize>) -> Option<usize> {
    match b {
        Some(x) => if 8 <= x <= 27 {
            Some(x)
        } else {
            None
        },
        None => None,
    }
}

fn env_bits(b: Option<usize>) -> (r: Option<usize>)
    ensures
        r == bits_given(b),
{
    match b {
        Some(x) => if 8 <= x && x <= 27 {
            Some(x)
        } else {
            None
        },
        None => None,
    }
}

/// What a cluster loses when an entry goes in: nothing, or one entry, and that is
/// of the same position and no deeper, or free, or no deeper than any other.
pub proof fn lemma_only_the_shallowest_gives_way(
    es: Seq<Entry>,
    x: Entry,
    out: Seq<Entry>,
    k: int,
)
    requires
        es.len() == 4,
        inserted(es, x, out),
        0 <= k < 4,
        out[k] != es[k],
    ensures
        out[k] == x,
        hit(es[k], x.key, x.verify) && es[k].depth <= x.depth || es[k].key == 0 || forall|j: int|
            0 <= j < 4 ==> es[k].depth <= #[trigger] es[j].depth,
        forall|j: int| 0 <= j < 4 && j != k ==> #[trigger] out[j] == es[j],
{
    lemma_stop_range(es, x.key, x.verify, 0);
}

proof fn lemma_stop_range(es: Seq<Entry>, key: u64, verify: u32, i: int)
    requires
        0 <= i <= 4,
    ensures
        i <= stop_at(es, key, verify, i) <= 4,
        stop_at(es, key, verify, i) < 4 ==> hit(es[stop_at(es, key, verify, i)], key, verify)
            || es[stop_at(es, key, verify, i)].key == 0,
    decreases 4 - i,
{
    if i < 4 && !(hit(es[i], key, verify) || es[i].key == 0) {
        lemma_stop_range(es, key, verify, i + 1);
    }
}

/// A table that may still grow grows, the larger it is by the less, and never
/// beyond the limit.
pub proof fn lemma_growth_slows(a: TranspositionTable, b: TranspositionTable)
    requires
        a.bits <= b.bits,
        b.bits < b.max_bits,
        a.max_bits == b.max_bits,
    ensures
        b.bits < b.grown_bits() <= b.max_bits,
        b.grown_bits() <= b.bits + 3,
        b.grown_bits() - b.bits <= a.grown_bits() - a.bits,
{
}

} // verus!
