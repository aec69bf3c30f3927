//! Decisions at a search node.

use vstd::prelude::*;

use crate::ace::eval::MATE;
use crate::ace::game::{AceGame, AceState};
use crate::ace::table::{Bound, Record, Table, TableEntry};

verus! {

/// Scores beyond this count plies to an arrival.
pub const MATE_ZONE: i32 = 99_872;

/// A score counted from the root, as the table of a node keeps it: plies to an
/// arrival count from the node.
pub open spec fn node_relative(score: int, ply: int) -> int {
    if score > MATE_ZONE {
        score + ply
    } else if score < -MATE_ZONE {
        score - ply
    } else {
        score
    }
}

/// The way back.
pub open spec fn root_relative(score: int, ply: int) -> int {
    if score > MATE_ZONE {
        score - ply
    } else if score < -MATE_ZONE {
        score + ply
    } else {
        score
    }
}

/// A score survives the trip into the table of a node and back.
pub proof fn lemma_score_round_trip(score: int, ply: int)
    requires
        ply >= 0,
    ensures
        root_relative(node_relative(score, ply), ply) == score,
{
}

pub fn to_table(score: i32, ply: usize) -> (r: i32)
    requires
        -200_000 <= score <= 200_000,
        ply < 64,
    ensures
        r == node_relative(score as int, ply as int),
{
    if score > MATE_ZONE {
        score + ply as i32
    } else if score < -MATE_ZONE {
        score - ply as i32
    } else {
        score
    }
}

pub fn from_table(score: i32, ply: usize) -> (r: i32)
    requires
        -200_100 <= score <= 200_100,
        ply < 64,
    ensures
        r == root_relative(score as int, ply as int),
{
    if score > MATE_ZONE {
        score - ply as i32
    } else if score < -MATE_ZONE {
        score + ply as i32
    } else {
        score
    }
}

/// What a table entry is good for.
#[derive(Clone, Copy, PartialEq, Eq, Structural)]
pub enum Cutoff {
    /// Its move only.
    Nothing,
    /// A score that ends the node.
    Score(i32),
    /// A score that would, were it not tainted.
    Refused,
}

/// A deep enough entry below the root ends the node where its bound decides
/// the window, unless it is tainted.
pub open spec fn cutoff_spec(e: TableEntry, depth: int, ply: int, alpha: int, beta: int) -> Cutoff {
    let es = root_relative(e.score as int, ply);
    if e.depth < depth || ply == 0 {
        Cutoff::Nothing
    } else if e.bound == Bound::Exact || (e.bound == Bound::Lower && es >= beta) || (e.bound
        == Bound::Upper && es <= alpha) {
        if e.tainted {
            Cutoff::Refused
        } else {
            Cutoff::Score(es as i32)
        }
    } else {
        Cutoff::Nothing
    }
}

pub fn table_cutoff(e: &TableEntry, depth: i32, ply: usize, alpha: i32, beta: i32) -> (c: Cutoff)
    requires
        -200_100 <= e.score <= 200_100,
        ply < 64,
    ensures
        c == cutoff_spec(*e, depth as int, ply as int, alpha as int, beta as int),
{
    if e.depth < depth || ply == 0 {
        return Cutoff::Nothing;
    }
    let es: i32 = from_table(e.score, ply);
    if e.bound == Bound::Exact || (e.bound == Bound::Lower && es >= beta) || (e.bound
        == Bound::Upper && es <= alpha) {
        if e.tainted {
            Cutoff::Refused
        } else {
            Cutoff::Score(es)
        }
    } else {
        Cutoff::Nothing
    }
}

/// Bound and taint to store for a score that leans on a repetition of the line
/// above: what the repetition's draw may have raised or lowered is not claimed.
pub open spec fn fence_spec(bound: Bound, best: int, leans: bool) -> (Bound, bool) {
    if !leans {
        (bound, false)
    } else if best > 0 {
        match bound {
            Bound::Exact => (Bound::Lower, false),
            Bound::Lower => (Bound::Lower, false),
            Bound::Upper => (Bound::Upper, true),
        }
    } else if best < 0 {
        match bound {
            Bound::Exact => (Bound::Upper, false),
            Bound::Upper => (Bound::Upper, false),
            Bound::Lower => (Bound::Lower, true),
        }
    } else {
        (bound, true)
    }
}

/// The claims that a fence leaves standing: an exact score is never stored for
/// a leaning one, and an untainted bound is on the side of its score.
pub proof fn lemma_fence(bound: Bound, best: int)
    ensures
        fence_spec(bound, best, true).1 || fence_spec(bound, best, true).0 != Bound::Exact,
        !fence_spec(bound, best, true).1 ==> (best > 0 && fence_spec(bound, best, true).0
            == Bound::Lower) || (best < 0 && fence_spec(bound, best, true).0 == Bound::Upper),
        fence_spec(bound, best, false) == (bound, false),
{
}

pub fn fence(bound: Bound, best: i32, leans: bool) -> (r: (Bound, bool))
    ensures
        r == fence_spec(bound, best as int, leans),
{
    if !leans {
        (bound, false)
    } else if best > 0 {
        match bound {
            Bound::Exact => (Bound::Lower, false),
            Bound::Lower => (Bound::Lower, false),
            Bound::Upper => (Bound::Upper, true),
        }
    } else if best < 0 {
        match bound {
            Bound::Exact => (Bound::Upper, false),
            Bound::Upper => (Bound::Upper, false),
            Bound::Lower => (Bound::Lower, true),
        }
    } else {
        (bound, true)
    }
}

/// A late quiet wall at the frontier is left out, unless the node is about to
/// be lost.
pub fn frontier_skips(
    depth: i32,
    ply: usize,
    i: usize,
    m: i16,
    tt_move: i16,
    history: i32,
    best: Option<i32>,
) -> (r: bool)
    ensures
        r == (depth <= 2 && ply > 0 && i >= 10 && m >= 100 && m != tt_move && history <= 0 && (
        best matches Some(b) && b > -MATE + 200)),
{
    depth <= 2 && ply > 0 && i >= 10 && m >= 100 && m != tt_move && history <= 0 && match best {
        Some(b) => b > -MATE + 200,
        None => false,
    }
}

/// The position occurred before since the last wall, not counting the last two
/// plies.
pub open spec fn repeats_history(s: AceState) -> bool {
    exists|k: int|
        s.last_wall_ply <= k <= s.hist.len() - 2 && 0 <= k && (#[trigger] s.hist[k]).lo == s.lo
            && s.hist[k].hi == s.hi
}

/// Whether the position occurred before since the last wall.
pub fn repeats_game_history(g: &AceGame) -> (r: bool)
    requires
        g.wf(),
    ensures
        r == repeats_history(g@),
{
    let n: usize = g.hist.len();
    if n < 2 {
        return false;
    }
    let mut k: usize = n - 1;
    while k > g.last_wall_ply
        invariant
            g.wf(),
            n == g.hist@.len(),
            n >= 2,
            k <= n - 1,
            forall|j: int|
                k <= j <= n - 2 ==> !((#[trigger] g.hist@[j]).lo == g.hash_lo && g.hist@[j].hi
                    == g.hash_hi),
        decreases k,
    {
        k = k - 1;
        if g.hist[k].lo == g.hash_lo && g.hist[k].hi == g.hash_hi {
            assert(g@.hist[k as int].lo == g@.lo && g@.hist[k as int].hi == g@.hi);
            return true;
        }
    }
    false
}

/// The keys of a search line and what its nodes lean on.
pub struct Line {
    /// Keys of the line above.
    pub path_lo: [u32; 64],
    pub path_hi: [u32; 64],
    /// Least ply above that a node's score leans on; 64 for none.
    pub sub_min: [i32; 64],
    /// Keys of the repetition.
    pub sub_anc_lo: [u32; 64],
    pub sub_anc_hi: [u32; 64],
}

impl Line {
    /// The position occurs on the line above.
    pub open spec fn repeats(self, ply: int, lo: u32, hi: u32) -> bool {
        exists|k: int|
            0 <= k < ply && #[trigger] self.path_lo[k] == lo && self.path_hi[k] == hi
    }

    /// A line with nothing on it.
    pub fn new() -> (r: Self)
        ensures
            forall|k: int| 0 <= k < 64 ==> #[trigger] r.path_lo[k] == 0,
            forall|k: int| 0 <= k < 64 ==> #[trigger] r.path_hi[k] == 0,
            forall|k: int| 0 <= k < 64 ==> #[trigger] r.sub_min[k] == 64,
            forall|k: int| 0 <= k < 64 ==> #[trigger] r.sub_anc_lo[k] == 0,
            forall|k: int| 0 <= k < 64 ==> #[trigger] r.sub_anc_hi[k] == 0,
    {
        Line {
            path_lo: [0u32; 64],
            path_hi: [0u32; 64],
            sub_min: [64i32; 64],
            sub_anc_lo: [0u32; 64],
            sub_anc_hi: [0u32; 64],
        }
    }

    /// The last ply of the line above that holds the position.
    pub fn find(&self, ply: usize, lo: u32, hi: u32) -> (r: Option<usize>)
        requires
            ply <= 64,
        ensures
            r is Some == self.repeats(ply as int, lo, hi),
            r matches Some(k) ==> k < ply && self.path_lo[k as int] == lo && self.path_hi[k as int]
                == hi && forall|j: int|
                k < j < ply ==> !(#[trigger] self.path_lo[j] == lo && self.path_hi[j] == hi),
    {
        let mut k: usize = ply;
        while k > 0
            invariant
                k <= ply <= 64,
                forall|j: int|
                    k <= j < ply ==> !(#[trigger] self.path_lo[j] == lo && self.path_hi[j] == hi),
            decreases k,
        {
            k = k - 1;
            if self.path_lo[k] == lo && self.path_hi[k] == hi {
                return Some(k);
            }
        }
        None
    }

    /// Hands what the child leans on up to the node.
    pub fn inherit(&mut self, ply: usize)
        requires
            ply < 63,
        ensures
            final(self).path_lo == old(self).path_lo,
            final(self).path_hi == old(self).path_hi,
            final(self).sub_min[ply as int] == (if old(self).sub_min[ply + 1] < old(
                self,
            ).sub_min[ply as int] {
                old(self).sub_min[ply + 1]
            } else {
                old(self).sub_min[ply as int]
            }),
    {
        if self.sub_min[ply + 1] < self.sub_min[ply] {
            let x: i32 = self.sub_min[ply + 1];
            let lo: u32 = self.sub_anc_lo[ply + 1];
            let hi: u32 = self.sub_anc_hi[ply + 1];
            self.sub_min[ply] = x;
            self.sub_anc_lo[ply] = lo;
            self.sub_anc_hi[ply] = hi;
        }
    }
}

// --- memory ---

/// Bound of a history value.
pub const HISTORY_LIMIT: i32 = 1_073_676_289;

/// History values above this halve the table.
pub const HISTORY_HALVE: i32 = 100_000_000;

/// Greatest depth of a node: the square of a greater one, added to a history
/// value, could pass 32 bits.
pub const DEPTH_LIMIT: i32 = 32_767;

/// Greatest depth of a search: every ply may add one.
pub const MAX_DEPTH: i32 = 32_703;

/// What cutoffs taught: history of walls, answers to moves, killers by ply.
pub struct Memory {
    pub history: [i32; 512],
    pub cm: [i16; 512],
    pub k0: [i16; 64],
    pub k1: [i16; 64],
}

/// Every entry halved, rounding down.
pub open spec fn halved(h: Seq<i32>) -> Seq<i32> {
    Seq::new(h.len(), |i: int| (h[i] / 2) as i32)
}

/// The history after a cutoff by wall `m`.
pub open spec fn rewarded(h: Seq<i32>, m: int, depth: int) -> Seq<i32> {
    let r = h.update(m, (h[m] + depth * depth) as i32);
    if r[m] > HISTORY_HALVE {
        halved(r)
    } else {
        r
    }
}

fn halve(h: &mut [i32; 512])
    requires
        forall|i: int| 0 <= i < 512 ==> 0 <= #[trigger] old(h)[i],
    ensures
        final(h)@ == halved(old(h)@),
{
    let ghost h0 = h@;
    let mut i: usize = 0;
    while i < 512
        invariant
            i <= 512,
            h0 == old(h)@,
            h0.len() == 512,
            forall|k: int| 0 <= k < 512 ==> 0 <= #[trigger] h0[k],
            forall|k: int| 0 <= k < i ==> #[trigger] h[k] == h0[k] / 2,
            forall|k: int| i <= k < 512 ==> #[trigger] h[k] == h0[k],
        decreases 512 - i,
    {
        h[i] = h[i] / 2;
        i = i + 1;
    }
    assert(h@ =~= halved(h0));
}

impl Memory {
    pub open spec fn wf(self) -> bool {
        forall|i: int| 0 <= i < 512 ==> 0 <= #[trigger] self.history[i] <= HISTORY_LIMIT
    }

    /// Nothing was learnt yet.
    pub open spec fn empty(self) -> bool {
        &&& forall|i: int| 0 <= i < 512 ==> #[trigger] self.history[i] == 0
        &&& forall|i: int| 0 <= i < 512 ==> #[trigger] self.cm[i] == 0
        &&& forall|i: int| 0 <= i < 64 ==> #[trigger] self.k0[i] == 0
        &&& forall|i: int| 0 <= i < 64 ==> #[trigger] self.k1[i] == 0
    }

    pub fn new() -> (r: Self)
        ensures
            r.wf(),
            r.empty(),
    {
        Memory {
            history: [0i32; 512],
            cm: [0i16; 512],
            k0: [0i16; 64],
            k1: [0i16; 64],
        }
    }

    /// Ages the history: every value is halved.
    pub fn age(&mut self)
        requires
            old(self).wf(),
        ensures
            final(self).wf(),
            final(self).history@ == halved(old(self).history@),
            final(self).cm == old(self).cm,
            final(self).k0 == old(self).k0,
            final(self).k1 == old(self).k1,
    {
        halve(&mut self.history);
        assert forall|i: int| 0 <= i < 512 implies 0 <= #[trigger] self.history[i]
            <= HISTORY_LIMIT by {
            assert(self.history@[i] == old(self).history@[i] / 2);
        }
    }

    /// Learns from a cutoff by `m` in answer to `prev_move`: a wall becomes the
    /// first killer of the ply and gains history; `m` becomes the answer.
    pub fn reward(&mut self, m: i16, depth: i32, ply: usize, prev_move: i16)
        requires
            old(self).wf(),
            0 <= m < 512,
            prev_move < 512,
            0 <= depth <= DEPTH_LIMIT,
            ply < 64,
        ensures
            final(self).wf(),
            m < 100 ==> final(self).history == old(self).history && final(self).k0
                == old(self).k0 && final(self).k1 == old(self).k1,
            m >= 100 ==> final(self).history@ == rewarded(
                old(self).history@,
                m as int,
                depth as int,
            ) && final(self).k0@ == old(self).k0@.update(ply as int, m) && final(self).k1@ == (
            if old(self).k0[ply as int] == m {
                old(self).k1@
            } else {
                old(self).k1@.update(ply as int, old(self).k0[ply as int])
            }),
            final(self).cm@ == (if prev_move > 0 {
                old(self).cm@.update(prev_move as int, m)
            } else {
                old(self).cm@
            }),
    {
        if m >= 100 {
            if self.k0[ply] != m {
                let k: i16 = self.k0[ply];
                self.k1[ply] = k;
                self.k0[ply] = m;
            }
            assert(self.k0@ =~= old(self).k0@.update(ply as int, m));
            proof {
                assert(0 <= depth * depth <= 1_073_676_289) by (nonlinear_arith)
                    requires
                        0 <= depth <= 32_767,
                ;
            }
            let ghost h0 = self.history@;
            let h: i32 = self.history[m as usize] + depth * depth;
            self.history[m as usize] = h;
            let ghost h1 = self.history@;
            assert(h1 =~= h0.update(m as int, h));
            assert forall|i: int| 0 <= i < 512 implies 0 <= #[trigger] self.history[i] by {
                assert(i == m || h1[i] == h0[i]);
                assert(0 <= old(self).history[i]);
            }
            if h > HISTORY_HALVE {
                halve(&mut self.history);
            }
            proof {
                assert forall|i: int| 0 <= i < 512 implies 0 <= #[trigger] self.history[i]
                    <= HISTORY_LIMIT by {
                    assert(0 <= old(self).history[i] <= HISTORY_LIMIT);
                    assert(0 <= old(self).history[m as int] <= HISTORY_LIMIT);
                    if h > HISTORY_HALVE {
                        assert(self.history@[i] == h1[i] / 2);
                    }
                }
            }
        }
        if prev_move > 0 {
            self.cm[prev_move as usize] = m;
        }
    }

    /// The answer to a move, 0 for none.
    pub fn answer(&self, prev_move: i16) -> (m: i16)
        requires
            prev_move < 512,
        ensures
            m == (if prev_move > 0 {
                self.cm[prev_move as int]
            } else {
                0
            }),
    {
        if prev_move > 0 {
            self.cm[prev_move as usize]
        } else {
            0
        }
    }
}

// --- table ---

/// An entry that a search can have stored.
pub open spec fn entry_ok(e: TableEntry) -> bool {
    bound_fits(e.bound, e.score as int)
}

/// A score that a search can store with a bound: what it claims is within the
/// mate scores.
pub open spec fn bound_fits(bound: Bound, score: int) -> bool {
    &&& -200_100 <= score <= 200_100
    &&& bound != Bound::Upper ==> score <= MATE
    &&& bound != Bound::Lower ==> score > -MATE
}

/// All scores of the table are scores of a search.
pub open spec fn scores_ok(t: Table) -> bool {
    forall|lo: u32, hi: u32| (#[trigger] t.find(lo, hi)) is Some ==> entry_ok(t.find(lo, hi)->0)
}

/// Storing a search's score keeps the table sound.
pub proof fn lemma_store_keeps_scores(
    before: Table,
    after: Table,
    lo: u32,
    hi: u32,
    r: Record,
    ignore_generation: bool,
)
    requires
        before.wf(),
        scores_ok(before),
        bound_fits(r.bound, r.score as int),
        ({
            let e = before.entries[before.slot(lo)];
            if before.replaces(e, r.depth, ignore_generation) {
                &&& after.find(lo, hi) == Some(before.recorded(e, lo, hi, r))
                &&& !before.grows_on(lo) ==> after.entries@ == before.with_record(lo, hi, r)
                &&& before.grows_on(lo) ==> forall|l: u32, h: u32|
                    !(l == lo && h == hi) ==> #[trigger] after.find(l, h) == before.find(l, h)
            } else {
                after == before
            }
        }),
    ensures
        scores_ok(after),
{
    let e = before.entries[before.slot(lo)];
    if before.replaces(e, r.depth, ignore_generation) {
        crate::util::pow::lemma_two_pow_small(before.bits as nat);
        assert forall|l: u32, h: u32| (#[trigger] after.find(l, h)) is Some implies entry_ok(
            after.find(l, h)->0,
        ) by {
            if !(l == lo && h == hi) {
                if before.grows_on(lo) {
                    assert(after.find(l, h) == before.find(l, h));
                } else {
                    assert(after.entries@.len() == before.entries@.len());
                    assert(after.slot(l) == before.slot(l));
                    if before.slot(l) != before.slot(lo) {
                        assert(after.entries@[before.slot(l)] == before.entries@[before.slot(l)]);
                        assert(after.find(l, h) == before.find(l, h));
                    } else {
                        assert(after.entries@[before.slot(l)] == before.recorded(e, lo, hi, r));
                    }
                }
            }
        }
    }
}

} // verus!
