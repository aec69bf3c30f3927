//! Win certificates of a search, remembered by position key.

use std::collections::HashMap;
use vstd::prelude::*;

use crate::ace::certify::{arrives_next, can_force, certified, certified_as, certify, CertifyReport};
use crate::ace::game::{AceGame, AceState};
use crate::ace::race::{
    classify_spec, hands_empty_race_stm_wins, race_of, race_settled, RaceVerdict,
    RACE_RESOLVER_DEPTH_CAP,
};
use crate::util::clock::Deadline;

verus! {

broadcast use vstd::std_specs::hash::group_hash_axioms;

/// Node budget that 0 stands for.
pub const CERT_DEFAULT_BUDGET: u64 = 2500;

/// Entries at which the memo starts over.
pub const CERT_MEMO_LIMIT: usize = 16384;

/// Key of a question: position keys, side and walls in hand.
pub open spec fn memo_key(s: AceState, side: int) -> u128 {
    (s.lo + 0x1_0000_0000 * s.hi + 0x1_0000_0000_0000_0000 * (side + 2 * (s.wl0 + 0x8000_0000
        * s.wl1))) as u128
}

/// Walls in hand of a playable game.
pub open spec fn hands_ok(s: AceState) -> bool {
    0 <= s.wl0 <= i32::MAX && 0 <= s.wl1 <= i32::MAX
}

/// Questions with one key agree in position keys, side and walls in hand.
pub proof fn lemma_memo_key(a: AceState, x: int, b: AceState, y: int)
    requires
        hands_ok(a),
        hands_ok(b),
        0 <= x < 2,
        0 <= y < 2,
        memo_key(a, x) == memo_key(b, y),
    ensures
        a.lo == b.lo,
        a.hi == b.hi,
        x == y,
        a.wl0 == b.wl0,
        a.wl1 == b.wl1,
{
    lemma_key_fits(a, x);
    lemma_key_fits(b, y);
    lemma_same_digits(
        a.lo as int,
        a.hi as int,
        x,
        a.wl0,
        a.wl1,
        b.lo as int,
        b.hi as int,
        y,
        b.wl0,
        b.wl1,
    );
}

/// A number written in parts of fixed sizes gives the parts back.
proof fn lemma_same_digits(
    a: int,
    b: int,
    c: int,
    d: int,
    e: int,
    a2: int,
    b2: int,
    c2: int,
    d2: int,
    e2: int,
)
    requires
        0 <= a < 0x1_0000_0000,
        0 <= b < 0x1_0000_0000,
        0 <= c < 2,
        0 <= d < 0x8000_0000,
        0 <= a2 < 0x1_0000_0000,
        0 <= b2 < 0x1_0000_0000,
        0 <= c2 < 2,
        0 <= d2 < 0x8000_0000,
        a + 0x1_0000_0000 * b + 0x1_0000_0000_0000_0000 * (c + 2 * (d + 0x8000_0000 * e)) == a2
            + 0x1_0000_0000 * b2 + 0x1_0000_0000_0000_0000 * (c2 + 2 * (d2 + 0x8000_0000 * e2)),
    ensures
        a == a2,
        b == b2,
        c == c2,
        d == d2,
        e == e2,
{
    let r = b + 0x1_0000_0000 * (c + 2 * (d + 0x8000_0000 * e));
    let r2 = b2 + 0x1_0000_0000 * (c2 + 2 * (d2 + 0x8000_0000 * e2));
    assert(a + 0x1_0000_0000 * r == a2 + 0x1_0000_0000 * r2);
    assert(a == a2 && r == r2);
    let q = c + 2 * (d + 0x8000_0000 * e);
    let q2 = c2 + 2 * (d2 + 0x8000_0000 * e2);
    assert(b + 0x1_0000_0000 * q == b2 + 0x1_0000_0000 * q2);
    assert(b == b2 && q == q2);
}

proof fn lemma_key_fits(s: AceState, side: int)
    requires
        hands_ok(s),
        0 <= side < 2,
    ensures
        memo_key(s, side) == s.lo + 0x1_0000_0000 * s.hi + 0x1_0000_0000_0000_0000 * (side + 2 * (
        s.wl0 + 0x8000_0000 * s.wl1)),
        0 <= s.lo + 0x1_0000_0000 * s.hi + 0x1_0000_0000_0000_0000 * (side + 2 * (s.wl0
            + 0x8000_0000 * s.wl1)) <= u128::MAX,
{
}

/// Some position with the key is a certain win for the side.
pub open spec fn keyed_win(key: u128) -> bool {
    exists|s: AceState, side: int| #[trigger]
        memo_key(s, side) == key && hands_ok(s) && 0 <= side < 2 && can_force(s, side)
}

/// The side to move is taken to win the race: it is settled so, or it is not
/// settled and counts as lost.
pub open spec fn race_taken(s: AceState, stm_wins: bool) -> bool {
    ||| race_settled(s, stm_wins)
    ||| {
        &&& !stm_wins
        &&& classify_spec(s) == RaceVerdict::NeedsProof
        &&& race_of(s).rank() > RACE_RESOLVER_DEPTH_CAP
    }
}

/// Whether the side to move wins the race without walls.
pub fn stm_wins_race(g: &mut AceGame) -> (r: bool)
    requires
        old(g).wf(),
        old(g)@.hist.len() < i32::MAX - 1000,
    ensures
        final(g).wf(),
        final(g)@ == old(g)@,
        race_taken(old(g)@, r),
{
    match hands_empty_race_stm_wins(g) {
        Some(w) => w,
        None => false,
    }
}

pub struct CertMemo {
    /// 1 for a certificate, minus the work for a failure.
    pub cache: HashMap<u128, i32>,
    pub proven: u64,
    pub calls: u64,
    pub think_calls: u32,
    /// Most certifications from evaluations of one search.
    pub cap: u32,
}

impl CertMemo {
    pub open spec fn wf(self) -> bool {
        forall|k: u128| #[trigger]
            self.cache@.contains_key(k) ==> (self.cache@[k] == 1 && keyed_win(k)) || (i32::MIN
                < self.cache@[k] < 0)
    }

    pub fn new() -> (r: Self)
        ensures
            r.wf(),
            r.cache@ == Map::<u128, i32>::empty(),
            r.think_calls == 0,
            r.cap == 24,
    {
        CertMemo { cache: HashMap::new(), proven: 0, calls: 0, think_calls: 0, cap: 24 }
    }

    fn key(g: &AceGame, side: usize) -> (k: u128)
        requires
            g.wf(),
            hands_ok(g@),
            side < 2,
        ensures
            k == memo_key(g@, side as int),
    {
        proof {
            lemma_key_fits(g@, side as int);
        }
        g.hash_lo as u128 + 0x1_0000_0000 * g.hash_hi as u128 + 0x1_0000_0000_0000_0000 * (
        side as u128 + 2 * (g.wl[0] as u128 + 0x8000_0000 * g.wl[1] as u128))
    }

    /// Whether an answer for the side is remembered.
    pub fn knows(&self, g: &AceGame, side: usize) -> (r: bool)
        requires
            g.wf(),
            hands_ok(g@),
            side < 2,
        ensures
            r == self.cache@.contains_key(memo_key(g@, side as int)),
    {
        let k: u128 = Self::key(g, side);
        self.cache.contains_key(&k)
    }

    /// Whether `side` is certain to win. Without walls the race decides. Else a
    /// remembered certificate answers, and a remembered failure that spent at
    /// least the budget; otherwise the certifier runs.
    pub fn cert_win(
        &mut self,
        g: &mut AceGame,
        side: usize,
        budget: u64,
        deadline_ms: u64,
    ) -> (r: bool)
        requires
            old(self).wf(),
            old(g).wf(),
            hands_ok(old(g)@),
            side < 2,
            old(g)@.hist.len() < i32::MAX - 1000,
            budget < i32::MAX,
        ensures
            final(self).wf(),
            final(g).wf(),
            final(g)@ == old(g)@,
            final(self).cap == old(self).cap,
            old(g)@.wl0 == 0 && old(g)@.wl1 == 0 ==> {
                &&& race_taken(
                    old(g)@,
                    if side == old(g)@.turn {
                        r
                    } else {
                        !r
                    },
                )
                &&& *final(self) == *old(self)
            },
            !(old(g)@.wl0 == 0 && old(g)@.wl1 == 0) ==> {
                let k = memo_key(old(g)@, side as int);
                let b = if budget == 0 {
                    CERT_DEFAULT_BUDGET
                } else {
                    budget
                };
                &&& r ==> keyed_win(k)
                &&& final(self).cache@.contains_key(k)
                &&& r == (final(self).cache@[k] == 1)
                &&& old(self).cache@.contains_key(k) && (old(self).cache@[k] == 1 || b
                    <= -old(self).cache@[k]) ==> r == (old(self).cache@[k] == 1) && *final(self)
                    == *old(self)
                &&& !(old(self).cache@.contains_key(k) && (old(self).cache@[k] == 1 || b
                    <= -old(self).cache@[k])) ==> certified_as(
                    old(g)@,
                    b,
                    deadline_ms == 0,
                    Some(side),
                    if r {
                        Some(side)
                    } else {
                        None
                    },
                )
                &&& !old(self).cache@.contains_key(k) && deadline_ms == 0 && arrives_next(
                    old(g)@,
                    side as int,
                ) ==> r
                &&& old(self).cache@.contains_key(k) && old(self).cache@[k] < 0 && !r
                    ==> final(self).cache@[k] <= old(self).cache@[k]
            },
    {
        if g.wl[0] == 0 && g.wl[1] == 0 {
            let stm: bool = stm_wins_race(g);
            return if side == g.turn {
                stm
            } else {
                !stm
            };
        }
        let k: u128 = Self::key(g, side);
        let bud: u64 = if budget == 0 {
            CERT_DEFAULT_BUDGET
        } else {
            budget
        };
        let prior: Option<i32> = match self.cache.get(&k) {
            Some(c) => Some(*c),
            None => None,
        };
        match prior {
            Some(c) => {
                assert(self.cache@.contains_key(k));
                if c == 1 {
                    return true;
                }
                if bud <= (-c) as u64 {
                    return false;
                }
            },
            None => {},
        }
        self.calls = self.calls.saturating_add(1);
        self.think_calls = self.think_calls.saturating_add(1);
        let deadline: Option<Deadline> = if deadline_ms > 0 {
            Some(Deadline::new(deadline_ms))
        } else {
            None
        };
        let report: CertifyReport = certify(g, bud, deadline, Some(side));
        assert(certified(g@, bud, deadline is None, Some(side), report));
        assert(certified_as(g@, bud, deadline is None, Some(side), report.proven));
        let res: bool = report.proven.is_some();
        let mut work: u64 = bud;
        if !res && report.nodes > 0 {
            work = report.nodes;
        }
        if res {
            self.proven = self.proven.saturating_add(1);
        }
        if self.cache.len() > CERT_MEMO_LIMIT {
            self.cache.clear();
        }
        if !res {
            match prior {
                Some(c) => {
                    if (-c) as u64 > work {
                        work = (-c) as u64;
                    }
                },
                None => {},
            }
        }
        let value: i32 = if res {
            1
        } else {
            -(work as i32)
        };
        proof {
            if res {
                assert(can_force(g@, side as int));
                assert(memo_key(g@, side as int) == k);
                assert(keyed_win(k));
            }
        }
        self.cache.insert(k, value);
        res
    }
}

} // verus!
