//! The search table: one entry per slot, replaced by depth within a
//! generation, growing in steps that fit the caches.

use vstd::prelude::*;

use crate::util::pow::{lemma_two_pow_mod, lemma_two_pow_small, power_of_two, two_pow};

verus! {

/// Index bits of a fresh table.
pub const TT_BITS: usize = 20;

/// What a score says: exact, a lower bound, an upper bound.
#[derive(Debug, Clone, Copy, PartialEq, Eq, Structural)]
pub enum Bound {
    Exact,
    Lower,
    Upper,
}

#[derive(Clone, Copy)]
pub struct TableEntry {
    pub used: bool,
    pub lo: u32,
    pub hi: u32,
    pub mv: i16,
    pub bound: Bound,
    pub depth: i32,
    /// Mate scores count from the node.
    pub score: i32,
    /// The score leans on a repetition of the line above: no cutoff from it.
    pub tainted: bool,
    /// Keys of that repetition.
    pub anc_lo: u32,
    pub anc_hi: u32,
    pub generation: u8,
}

pub open spec fn no_entry() -> TableEntry {
    TableEntry {
        used: false,
        lo: 0,
        hi: 0,
        mv: 0,
        bound: Bound::Exact,
        depth: 0,
        score: 0,
        tainted: false,
        anc_lo: 0,
        anc_hi: 0,
        generation: 0,
    }
}

/// The slots that are used among the first `n`.
pub open spec fn used_count(es: Seq<TableEntry>, n: int) -> int
    decreases n,
{
    if n <= 0 {
        0
    } else {
        used_count(es, n - 1) + (if es[n - 1].used {
            1int
        } else {
            0int
        })
    }
}

proof fn lemma_used_count(es: Seq<TableEntry>, n: int)
    requires
        0 <= n <= es.len(),
    ensures
        0 <= used_count(es, n) <= n,
    decreases n,
{
    if n > 0 {
        lemma_used_count(es, n - 1);
    }
}

/// Replacing slot `at` changes the count by that slot alone.
proof fn lemma_used_update(es: Seq<TableEntry>, at: int, x: TableEntry, n: int)
    requires
        0 <= at < es.len(),
        0 <= n <= es.len(),
        x.used,
    ensures
        used_count(es.update(at, x), n) == used_count(es, n) + (if at < n && !es[at].used {
            1int
        } else {
            0int
        }),
    decreases n,
{
    if n > 0 {
        lemma_used_update(es, at, x, n - 1);
    }
}

proof fn lemma_none_used(es: Seq<TableEntry>, n: int)
    requires
        0 <= n <= es.len(),
        forall|i: int| 0 <= i < es.len() ==> !(#[trigger] es[i]).used,
    ensures
        used_count(es, n) == 0,
    decreases n,
{
    if n > 0 {
        lemma_none_used(es, n - 1);
    }
}

/// The sizes, in index bits, that a growing table passes through.
#[derive(Clone, Copy)]
pub struct Tiers {
    pub l2: usize,
    pub l3: usize,
    pub d4: usize,
    pub d5: usize,
    pub max: usize,
}

pub struct Table {
    pub entries: Vec<TableEntry>,
    pub bits: usize,
    pub filled: usize,
    pub generation: u8,
    pub tiers: Tiers,
    pub adaptive: bool,
}

/// An entry about to be stored.
#[derive(Clone, Copy)]
pub struct Record {
    pub mv: i16,
    pub bound: Bound,
    pub depth: i32,
    pub score: i32,
    pub tainted: bool,
    pub anc_lo: u32,
    pub anc_hi: u32,
}

impl Table {
    /// The slot of a key.
    pub open spec fn slot(self, lo: u32) -> int {
        lo as int % self.entries@.len() as int
    }

    /// A power of two of slots; every entry sits in the slot of its key; the
    /// number of used slots is right.
    pub open spec fn wf(self) -> bool {
        &&& self.bits <= 31
        &&& self.tiers.max <= 31
        &&& self.entries@.len() == two_pow(self.bits as nat)
        &&& self.filled == used_count(self.entries@, self.entries@.len() as int)
        &&& forall|i: int|
            0 <= i < self.entries@.len() && (#[trigger] self.entries[i]).used ==> self.slot(
                self.entries[i].lo,
            ) == i
    }

    /// The entry of the keys, if there is one.
    pub open spec fn find(self, lo: u32, hi: u32) -> Option<TableEntry> {
        let e = self.entries[self.slot(lo)];
        if e.used && e.lo == lo && e.hi == hi {
            Some(e)
        } else {
            None
        }
    }

    /// Storing at depth `depth` replaces entry `e`: it is free, of an earlier
    /// generation (unless generations are off), or no deeper.
    pub open spec fn replaces(self, e: TableEntry, depth: i32, ignore_generation: bool) -> bool {
        ||| !e.used
        ||| !ignore_generation && e.generation != self.generation
        ||| depth >= e.depth
    }

    /// The entry that a record becomes over `e`. The keys of a repetition stay
    /// as they were unless the record is tainted.
    pub open spec fn recorded(self, e: TableEntry, lo: u32, hi: u32, r: Record) -> TableEntry {
        TableEntry {
            used: true,
            lo,
            hi,
            mv: r.mv,
            bound: r.bound,
            depth: r.depth,
            score: r.score,
            tainted: r.tainted,
            anc_lo: if r.tainted {
                r.anc_lo
            } else {
                e.anc_lo
            },
            anc_hi: if r.tainted {
                r.anc_hi
            } else {
                e.anc_hi
            },
            generation: self.generation,
        }
    }

    /// Index bits after growing: the next tier, then one more at a time, up to
    /// the limit.
    pub open spec fn next_bits(self) -> int {
        let b = self.bits;
        let t = self.tiers;
        let n = if b < t.l2 {
            t.l2 as int
        } else if b < t.l3 {
            t.l3 as int
        } else if b < t.d4 {
            t.d4 as int
        } else if b < t.d5 {
            t.d5 as int
        } else {
            b + 1
        };
        if n <= t.max {
            n
        } else {
            t.max as int
        }
    }

    /// The table with slot `lo` taking the record.
    pub open spec fn with_record(self, lo: u32, hi: u32, r: Record) -> Seq<TableEntry> {
        self.entries@.update(
            self.slot(lo),
            self.recorded(self.entries[self.slot(lo)], lo, hi, r),
        )
    }

    /// Filling the slot of `lo` makes the table grow: half of the slots are
    /// then used.
    pub open spec fn grows_on(self, lo: u32) -> bool {
        &&& !self.entries[self.slot(lo)].used
        &&& self.adaptive
        &&& self.bits < self.tiers.max
        &&& 2 * (self.filled + 1) >= self.entries@.len()
        &&& self.next_bits() > self.bits
    }

    /// A table of `1 << bits` free slots.
    pub fn new(bits: usize) -> (t: Self)
        requires
            bits <= 31,
        ensures
            t.wf(),
            t.bits == bits,
            t.filled == 0,
            t.generation == 0,
            !t.adaptive,
            t.tiers == (Tiers { l2: TT_BITS, l3: TT_BITS, d4: 18, d5: 22, max: 25 }),
            forall|i: int| 0 <= i < t.entries@.len() ==> #[trigger] t.entries[i] == no_entry(),
    {
        let t: Table = Table {
            entries: Self::blank(bits),
            bits,
            filled: 0,
            generation: 0,
            tiers: Tiers { l2: TT_BITS, l3: TT_BITS, d4: 18, d5: 22, max: 25 },
            adaptive: false,
        };
        proof {
            lemma_none_used(t.entries@, t.entries@.len() as int);
        }
        t
    }

    fn blank(bits: usize) -> (v: Vec<TableEntry>)
        requires
            bits <= 31,
        ensures
            v@.len() == two_pow(bits as nat),
            forall|i: int| 0 <= i < v@.len() ==> #[trigger] v[i] == no_entry(),
    {
        let e: TableEntry = TableEntry {
            used: false,
            lo: 0,
            hi: 0,
            mv: 0,
            bound: Bound::Exact,
            depth: 0,
            score: 0,
            tainted: false,
            anc_lo: 0,
            anc_hi: 0,
            generation: 0,
        };
        let size: usize = power_of_two(bits);
        vec![e; size]
    }

    /// A fresh table of `1 << bits` slots; the generation stays.
    pub fn resize(&mut self, bits: usize)
        requires
            old(self).wf(),
            bits <= 31,
        ensures
            final(self).wf(),
            final(self).bits == bits,
            final(self).filled == 0,
            forall|i: int|
                0 <= i < final(self).entries@.len() ==> #[trigger] final(self).entries[i]
                    == no_entry(),
            final(self).generation == old(self).generation,
            final(self).tiers == old(self).tiers,
            final(self).adaptive == old(self).adaptive,
    {
        self.entries = Self::blank(bits);
        self.bits = bits;
        self.filled = 0;
        proof {
            lemma_none_used(self.entries@, self.entries@.len() as int);
        }
    }

    /// Starts small and grows with the load, through sizes that fit the caches:
    /// `start`, `l2` and `l3` are index bits, each pushed above the one before.
    pub fn enable_adaptive(&mut self, start: usize, l2: usize, l3: usize)
        requires
            old(self).wf(),
            start <= 29,
            l2 <= 30,
            l3 <= 31,
        ensures
            final(self).wf(),
            final(self).adaptive,
            final(self).bits == start,
            final(self).filled == 0,
            final(self).generation == old(self).generation,
            forall|i: int|
                0 <= i < final(self).entries@.len() ==> #[trigger] final(self).entries[i]
                    == no_entry(),
            ({
                let t = final(self).tiers;
                &&& t.l2 == (if l2 >= start + 1 {
                    l2 as int
                } else {
                    start + 1
                })
                &&& t.l3 == (if l3 >= t.l2 + 1 {
                    l3 as int
                } else {
                    t.l2 + 1
                })
                &&& t.d4 == (if t.l3 <= 18 {
                    18
                } else {
                    t.l3
                })
                &&& t.d5 == (if t.d4 <= 22 {
                    22
                } else {
                    t.d4
                })
                &&& t.max == (if t.d5 <= 25 {
                    25
                } else {
                    t.d5
                })
            }),
    {
        let a: usize = if l2 >= start + 1 {
            l2
        } else {
            start + 1
        };
        let b: usize = if l3 >= a + 1 {
            l3
        } else {
            a + 1
        };
        let d4: usize = if b <= 18 {
            18
        } else {
            b
        };
        let d5: usize = if d4 <= 22 {
            22
        } else {
            d4
        };
        let max: usize = if d5 <= 25 {
            25
        } else {
            d5
        };
        self.tiers = Tiers { l2: a, l3: b, d4, d5, max };
        self.adaptive = true;
        self.resize(start);
    }

    /// The entry of the keys, if there is one.
    pub fn probe(&self, lo: u32, hi: u32) -> (r: Option<TableEntry>)
        requires
            self.wf(),
        ensures
            r == self.find(lo, hi),
    {
        proof {
            lemma_two_pow_small(self.bits as nat);
        }
        let e: TableEntry = self.entries[lo as usize % self.entries.len()];
        if e.used && e.lo == lo && e.hi == hi {
            Some(e)
        } else {
            None
        }
    }

    /// Starts the next generation: entries of earlier ones give way.
    pub fn next_generation(&mut self)
        requires
            old(self).wf(),
        ensures
            final(self).wf(),
            *final(self) == (Table {
                generation: if old(self).generation == 255 {
                    0
                } else {
                    (old(self).generation + 1) as u8
                },
                ..*old(self)
            }),
    {
        self.generation = self.generation.wrapping_add(1);
    }
}

/// What slot `j` of a larger table holds once the first `i` slots moved over.
spec fn moved(es: Seq<TableEntry>, len: int, j: int, i: int) -> TableEntry {
    let from = j % es.len() as int;
    if from < i && es[from].used && es[from].lo as int % len == j {
        es[from]
    } else {
        no_entry()
    }
}

impl Table {
    /// Stores a record under the keys where it may replace what is there. A
    /// table that grows on it keeps everything it holds.
    pub fn store(&mut self, lo: u32, hi: u32, r: Record, ignore_generation: bool)
        requires
            old(self).wf(),
        ensures
            final(self).wf(),
            final(self).generation == old(self).generation,
            final(self).tiers == old(self).tiers,
            final(self).adaptive == old(self).adaptive,
            ({
                let e = old(self).entries[old(self).slot(lo)];
                if old(self).replaces(e, r.depth, ignore_generation) {
                    &&& final(self).find(lo, hi) == Some(old(self).recorded(e, lo, hi, r))
                    &&& final(self).filled == old(self).filled + (if e.used {
                        0int
                    } else {
                        1int
                    })
                    &&& !old(self).grows_on(lo) ==> final(self).bits == old(self).bits
                        && final(self).entries@ == old(self).with_record(lo, hi, r)
                    &&& old(self).grows_on(lo) ==> final(self).bits == old(self).next_bits()
                        && forall|l: u32, h: u32|
                        !(l == lo && h == hi) ==> #[trigger] final(self).find(l, h) == old(
                            self,
                        ).find(l, h)
                } else {
                    *final(self) == *old(self)
                }
            }),
    {
        proof {
            lemma_two_pow_small(self.bits as nat);
            lemma_used_count(self.entries@, self.entries@.len() as int);
        }
        let at: usize = lo as usize % self.entries.len();
        let e: TableEntry = self.entries[at];
        let was_empty: bool = !e.used;
        let stale: bool = !ignore_generation && !was_empty && e.generation != self.generation;
        if was_empty || stale || r.depth >= e.depth {
            let x: TableEntry = TableEntry {
                used: true,
                lo,
                hi,
                mv: r.mv,
                bound: r.bound,
                depth: r.depth,
                score: r.score,
                tainted: r.tainted,
                anc_lo: if r.tainted {
                    r.anc_lo
                } else {
                    e.anc_lo
                },
                anc_hi: if r.tainted {
                    r.anc_hi
                } else {
                    e.anc_hi
                },
                generation: self.generation,
            };
            proof {
                lemma_used_update(self.entries@, at as int, x, self.entries@.len() as int);
            }
            self.entries.set(at, x);
            assert(self.entries@ == old(self).with_record(lo, hi, r));
            if was_empty {
                proof {
                    lemma_used_count(self.entries@, self.entries@.len() as int);
                }
                self.filled = self.filled + 1;
                if self.adaptive && self.bits < self.tiers.max && self.filled >= self.entries.len()
                    - self.filled {
                    let ghost mid = *self;
                    self.grow();
                    proof {
                        assert(mid.find(lo, hi) == Some(x));
                        assert forall|l: u32, h: u32|
                            !(l == lo && h == hi) && old(self).grows_on(lo) implies #[trigger] self.find(
                            l,
                            h,
                        ) == old(self).find(l, h) by {
                            assert(self.find(l, h) == mid.find(l, h));
                        }
                    }
                }
            }
        }
    }

    /// Grows to the next size and moves every entry.
    fn grow(&mut self)
        requires
            old(self).wf(),
        ensures
            final(self).wf(),
            old(self).next_bits() <= old(self).bits ==> *final(self) == *old(self),
            old(self).next_bits() > old(self).bits ==> final(self).bits == old(self).next_bits(),
            final(self).filled == old(self).filled,
            final(self).generation == old(self).generation,
            final(self).tiers == old(self).tiers,
            final(self).adaptive == old(self).adaptive,
            forall|l: u32, h: u32| #[trigger] final(self).find(l, h) == old(self).find(l, h),
    {
        let b: usize = self.bits;
        let t: Tiers = self.tiers;
        let want: usize = if b < t.l2 {
            t.l2
        } else if b < t.l3 {
            t.l3
        } else if b < t.d4 {
            t.d4
        } else if b < t.d5 {
            t.d5
        } else {
            b + 1
        };
        let nb: usize = if want <= t.max {
            want
        } else {
            t.max
        };
        if nb <= b {
            return ;
        }
        let mut next: Vec<TableEntry> = Self::blank(nb);
        let len: usize = next.len();
        let n: usize = self.entries.len();
        let mut filled: usize = 0;
        proof {
            lemma_two_pow_small(nb as nat);
            lemma_two_pow_small(b as nat);
            lemma_none_used(next@, len as int);
        }
        let mut i: usize = 0;
        while i < n
            invariant
                i <= n,
                n == self.entries@.len(),
                n > 0,
                len == next@.len(),
                self.wf(),
                self == old(self),
                b == self.bits,
                b < nb <= 31,
                len == two_pow(nb as nat),
                1 <= len <= 0x8000_0000,
                filled <= i,
                filled == used_count(self.entries@, i as int),
                filled == used_count(next@, len as int),
                forall|j: int|
                    0 <= j < len ==> #[trigger] next@[j] == moved(
                        self.entries@,
                        len as int,
                        j,
                        i as int,
                    ),
            decreases n - i,
        {
            let e: TableEntry = self.entries[i];
            let ghost before = next@;
            if e.used {
                let at: usize = e.lo as usize % len;
                proof {
                    lemma_two_pow_mod(e.lo as int, b as nat, nb as nat);
                    assert(self.slot(e.lo) == i);
                    assert(at as int % n as int == i);
                    assert(next@[at as int] == moved(self.entries@, len as int, at as int, i as int));
                    lemma_used_update(next@, at as int, e, len as int);
                }
                filled = filled + 1;
                next.set(at, e);
            }
            proof {
                assert forall|j: int| 0 <= j < len implies #[trigger] next@[j] == moved(
                    self.entries@,
                    len as int,
                    j,
                    i + 1,
                ) by {
                    assert(before[j] == moved(self.entries@, len as int, j, i as int));
                }
            }
            i = i + 1;
        }
        let ghost old_len = n as int;
        self.entries = next;
        self.bits = nb;
        self.filled = filled;
        proof {
            assert forall|j: int|
                0 <= j < self.entries@.len() && (#[trigger] self.entries[j]).used implies self.slot(
                self.entries[j].lo,
            ) == j by {
                assert(self.entries@[j] == moved(old(self).entries@, len as int, j, old_len));
            }
            assert forall|l: u32, h: u32| #[trigger] self.find(l, h) == old(self).find(l, h) by {
                let j = l as int % len as int;
                lemma_two_pow_mod(l as int, b as nat, nb as nat);
                assert(self.entries@[j] == moved(old(self).entries@, len as int, j, old_len));
                assert(j % old_len == old(self).slot(l));
            }
        }
    }
}

/// A table that may still grow grows, by as little as its tiers allow and never
/// beyond the limit.
pub proof fn lemma_tables_grow_to_the_limit(t: Table)
    requires
        t.bits < t.tiers.max,
        t.tiers.l2 <= t.tiers.l3 <= t.tiers.d4 <= t.tiers.d5 <= t.tiers.max,
    ensures
        t.bits < t.next_bits() <= t.tiers.max,
        t.bits < t.tiers.l2 ==> t.next_bits() <= t.tiers.l2,
        t.bits < t.tiers.l3 ==> t.next_bits() <= t.tiers.l3,
        t.bits < t.tiers.d4 ==> t.next_bits() <= t.tiers.d4,
        t.bits < t.tiers.d5 ==> t.next_bits() <= t.tiers.d5,
        t.next_bits() == t.tiers.l2 || t.next_bits() == t.tiers.l3 || t.next_bits() == t.tiers.d4
            || t.next_bits() == t.tiers.d5 || t.next_bits() == t.bits + 1,
{
}

} // verus!
