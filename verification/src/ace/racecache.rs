//! Race tables of recent wall configurations.

use vstd::prelude::*;

use crate::ace::convert::{keys_match, walls_hi, walls_lo};
use crate::ace::game::{zobrist_key, AceGame, AceState};
use crate::ace::race::{race_state_index, state_index, RaceState};
use crate::ace::racetable::{is_race_table, race_value_is, solve_race_config};
use crate::util::clock::{whole_ms, Deadline};

verus! {

/// Tables kept.
pub const RC_SLOTS: usize = 64;

/// Keys of the walls alone.
pub open spec fn wall_lo(h: u64, v: u64) -> u32 {
    walls_lo(2, h, 64) ^ walls_lo(3, v, 64)
}

pub open spec fn wall_hi(h: u64, v: u64) -> u32 {
    walls_hi(2, h, 64) ^ walls_hi(3, v, 64)
}

/// `t` is the race table of walls with these keys.
pub open spec fn table_for(t: Seq<i16>, lo: u32, hi: u32) -> bool {
    exists|h: u64, v: u64| #[trigger]
        is_race_table(t, h, v) && wall_lo(h, v) == lo && wall_hi(h, v) == hi
}

/// `x` is the value of the race of `s` over walls with the keys of its walls.
pub open spec fn keyed_race_value(s: AceState, x: int) -> bool {
    exists|h: u64, v: u64|
        wall_lo(h, v) == wall_lo(s.h, s.v) && wall_hi(h, v) == wall_hi(s.h, s.v)
            && #[trigger] race_value_is(
            RaceState { h, v, p0: s.p0, p1: s.p1, turn: s.turn },
            x,
        )
}

proof fn bv_wall_key(a: u32, b: u32, c: u32, d: u32, e: u32)
    by (bit_vector)
    ensures
        (a ^ b ^ c ^ d ^ e) ^ a ^ b ^ e == c ^ d,
        (a ^ b ^ c ^ d ^ 0u32) ^ a ^ b == c ^ d,
{
}

/// The keys of a position without pawns and turn.
fn wall_keys(g: &AceGame) -> (r: (u32, u32))
    requires
        g.wf(),
        keys_match(g@),
    ensures
        r.0 == wall_lo(g@.h, g@.v),
        r.1 == wall_hi(g@.h, g@.v),
{
    let (a_lo, a_hi) = zobrist_key(0, g.pawn[0] as u64);
    let (b_lo, b_hi) = zobrist_key(1, g.pawn[1] as u64);
    let (t_lo, t_hi) = zobrist_key(4, 0);
    proof {
        let s = g@;
        bv_wall_key(a_lo, b_lo, walls_lo(2, s.h, 64), walls_lo(3, s.v, 64), t_lo);
        bv_wall_key(a_hi, b_hi, walls_hi(2, s.h, 64), walls_hi(3, s.v, 64), t_hi);
    }
    if g.turn == 1 {
        (g.hash_lo ^ a_lo ^ b_lo ^ t_lo, g.hash_hi ^ a_hi ^ b_hi ^ t_hi)
    } else {
        (g.hash_lo ^ a_lo ^ b_lo, g.hash_hi ^ a_hi ^ b_hi)
    }
}

pub struct RaceCache {
    pub key_lo: [u32; 64],
    pub key_hi: [u32; 64],
    pub tables: Vec<Option<Vec<i16>>>,
    /// Tick of the last use.
    pub used: [u64; 64],
    pub tick: u64,
    /// The slot of the last answer.
    pub last: Option<usize>,
    /// What solving one configuration is taken to cost.
    pub build_ms: u64,
    pub hits: u64,
    pub solves: u64,
    pub budget_miss: u64,
    pub solve_ms: u64,
    pub think_solve_ms: u64,
    /// Time of the search, of which a quarter may go into solving.
    pub time_ms: Option<u64>,
    /// The last configuration that was turned down.
    pub blocked: bool,
    pub miss_lo: u32,
    pub miss_hi: u32,
    pub think_solves: u32,
    /// Most solutions of one search.
    pub count_cap: u32,
    pub build_ok: bool,
}

impl RaceCache {
    /// Every table is right for walls with its keys.
    pub open spec fn wf(self) -> bool {
        &&& self.tables@.len() == RC_SLOTS
        &&& forall|i: int|
            0 <= i < RC_SLOTS && (#[trigger] self.tables[i]) is Some ==> table_for(
                self.tables[i]->0@,
                self.key_lo[i],
                self.key_hi[i],
            )
        &&& self.last matches Some(i) ==> i < RC_SLOTS && self.tables[i as int] is Some
        &&& self.build_ms <= 50
    }

    /// The slot that a new table goes into: the first free one, else the one
    /// that was used least recently.
    pub open spec fn is_victim(self, k: int) -> bool {
        &&& 0 <= k < RC_SLOTS
        &&& if exists|i: int| 0 <= i < RC_SLOTS && (#[trigger] self.tables[i]) is None {
            &&& self.tables[k] is None
            &&& forall|i: int| 0 <= i < k ==> (#[trigger] self.tables[i]) is Some
        } else {
            &&& forall|i: int| 0 <= i < RC_SLOTS ==> self.used[k] <= #[trigger] self.used[i]
            &&& forall|i: int| 0 <= i < k ==> self.used[k] < #[trigger] self.used[i]
        }
    }

    /// Slot `k` holds the table of the game's walls, by their keys.
    pub open spec fn serves(self, k: int, s: AceState) -> bool {
        &&& 0 <= k < RC_SLOTS
        &&& self.tables[k] is Some
        &&& self.key_lo[k] == wall_lo(s.h, s.v)
        &&& self.key_hi[k] == wall_hi(s.h, s.v)
    }

    pub fn new() -> (r: Self)
        ensures
            r.wf(),
            forall|i: int| 0 <= i < RC_SLOTS ==> (#[trigger] r.tables[i]) is None,
            r.last is None,
            r.build_ms == 6,
            r.count_cap == 48,
            r.time_ms is None,
            !r.blocked,
            !r.build_ok,
            r.think_solves == 0,
            r.hits == 0,
            r.solves == 0,
    {
        let mut tables: Vec<Option<Vec<i16>>> = Vec::new();
        let mut i: usize = 0;
        while i < 64
            invariant
                i <= 64,
                tables@.len() == i,
                forall|k: int| 0 <= k < i ==> (#[trigger] tables@[k]) is None,
            decreases 64 - i,
        {
            tables.push(None);
            i = i + 1;
        }
        RaceCache {
            key_lo: [0u32; 64],
            key_hi: [0u32; 64],
            tables,
            used: [0u64; 64],
            tick: 0,
            last: None,
            build_ms: 6,
            hits: 0,
            solves: 0,
            budget_miss: 0,
            solve_ms: 0,
            think_solve_ms: 0,
            time_ms: None,
            blocked: false,
            miss_lo: 0,
            miss_hi: 0,
            think_solves: 0,
            count_cap: 48,
            build_ok: false,
        }
    }

    /// Resets the budgets for a search of `time_ms`.
    pub fn start_search(&mut self, time_ms: u64)
        requires
            old(self).wf(),
        ensures
            final(self).wf(),
            final(self).tables == old(self).tables,
            final(self).key_lo == old(self).key_lo,
            final(self).key_hi == old(self).key_hi,
            final(self).think_solve_ms == 0,
            final(self).think_solves == 0,
            final(self).time_ms == Some(time_ms),
            !final(self).blocked,
            !final(self).build_ok,
    {
        self.think_solve_ms = 0;
        self.time_ms = Some(time_ms);
        self.blocked = false;
        self.think_solves = 0;
        self.build_ok = false;
    }

    /// The counts and the share of the time leave room for one more table.
    pub open spec fn in_budget(self) -> bool {
        &&& self.build_ok
        &&& self.think_solves < self.count_cap
        &&& self.time_ms matches Some(t) ==> 4 * (self.think_solve_ms + self.build_ms) <= t
    }

    /// The walls are those for which a table was last refused.
    pub open spec fn turned_down(self, s: AceState) -> bool {
        &&& self.blocked
        &&& self.miss_lo == wall_lo(s.h, s.v)
        &&& self.miss_hi == wall_hi(s.h, s.v)
    }

    /// The table of the walls is there and is handed out: it is the one used
    /// last, or these walls were not refused.
    pub open spec fn at_hand(self, s: AceState) -> bool {
        ||| self.last matches Some(k) && self.serves(k as int, s)
        ||| !self.turned_down(s) && exists|k: int| self.serves(k, s)
    }

    /// A table of the walls is handed out, if need be after solving them.
    pub open spec fn promises(self, s: AceState, deadline: Deadline) -> bool {
        ||| self.at_hand(s)
        ||| {
            &&& !self.turned_down(s)
            &&& self.in_budget()
            &&& deadline.reading() matches Some(t) && t + self.build_ms * 1_000_000
                <= deadline.budget() * 1_000_000
        }
    }

    /// No table of the walls is handed out: it is not at hand, and it was refused,
    /// is beyond the budgets, or would take too long.
    pub open spec fn refuses(self, s: AceState, deadline: Deadline) -> bool {
        &&& !self.at_hand(s)
        &&& self.turned_down(s) || !self.in_budget() || (deadline.reading() is Some
            && !self.promises(s, deadline))
    }

    /// The slot that a new table goes into.
    fn victim(&self) -> (k: usize)
        requires
            self.wf(),
        ensures
            self.is_victim(k as int),
    {
        let mut slot: usize = 0;
        let mut i: usize = 0;
        while i < 64
            invariant
                i <= 64,
                slot < 64,
                self.wf(),
                i == 0 ==> slot == 0,
                i > 0 ==> slot < i,
                forall|k: int| 0 <= k < i ==> (#[trigger] self.tables[k]) is Some,
                forall|k: int| 0 <= k < i ==> self.used[slot as int] <= #[trigger] self.used[k],
                forall|k: int| 0 <= k < slot ==> self.used[slot as int] < #[trigger] self.used[k],
            decreases 64 - i,
        {
            if self.tables[i].is_none() {
                assert(self.tables[i as int] is None);
                return i;
            }
            if i == 0 || self.used[i] < self.used[slot] {
                slot = i;
            }
            i = i + 1;
        }
        slot
    }

    /// Whether the budgets allow to solve one more configuration.
    fn affordable(&self, deadline: &Deadline) -> (r: bool)
        requires
            self.wf(),
        ensures
            r ==> self.in_budget(),
            deadline.reading() matches Some(t) ==> r == (self.in_budget() && t + self.build_ms
                * 1_000_000 <= deadline.budget() * 1_000_000),
    {
        if !self.build_ok || self.think_solves >= self.count_cap {
            return false;
        }
        match self.time_ms {
            Some(t) => {
                if 4 * (self.think_solve_ms as u128 + self.build_ms as u128) > t as u128 {
                    return false;
                }
            },
            None => {},
        }
        !deadline.too_late_for(self.build_ms)
    }

    /// The slot with the race table of the game's walls. A missing table is
    /// solved where `force` or the budgets say so.
    pub fn race_tbl(&mut self, g: &AceGame, force: bool, deadline: &Deadline) -> (r: Option<usize>)
        requires
            old(self).wf(),
            g.wf(),
            keys_match(g@),
        ensures
            final(self).wf(),
            r matches Some(k) ==> final(self).serves(k as int, g@) && final(self).last == r,
            force ==> r is Some,
            old(self).at_hand(g@) ==> r is Some && final(self).tables == old(self).tables,
            old(self).at_hand(g@) ==> (r matches Some(k) ==> old(self).serves(k as int, g@)),
            r is Some && !force && !old(self).at_hand(g@) ==> old(self).in_budget()
                && !old(self).turned_down(g@),
            !force && old(self).refuses(g@, *deadline) ==> r is None,
            !force && deadline.reading() is Some ==> ((r is Some) == old(self).promises(
                g@,
                *deadline,
            )),
            r is None ==> final(self).tables == old(self).tables && final(self).turned_down(g@),
            final(self).time_ms == old(self).time_ms,
            final(self).build_ok == old(self).build_ok,
            final(self).count_cap == old(self).count_cap,
    {
        let (lo, hi) = wall_keys(g);
        match self.last {
            Some(i) => {
                if self.key_lo[i] == lo && self.key_hi[i] == hi {
                    self.hits = self.hits.saturating_add(1);
                    return Some(i);
                }
            },
            None => {},
        }
        if !force && self.blocked && lo == self.miss_lo && hi == self.miss_hi {
            self.budget_miss = self.budget_miss.saturating_add(1);
            return None;
        }
        let mut i: usize = 0;
        while i < 64
            invariant
                i <= 64,
                self.wf(),
                self == old(self),
                lo == wall_lo(g@.h, g@.v),
                hi == wall_hi(g@.h, g@.v),
                !force ==> !self.turned_down(g@),
                forall|k: int| 0 <= k < i ==> !(#[trigger] self.serves(k, g@)),
            decreases 64 - i,
        {
            if self.tables[i].is_some() && self.key_lo[i] == lo && self.key_hi[i] == hi {
                assert(self.serves(i as int, g@));
                self.last = Some(i);
                self.tick = self.tick.saturating_add(1);
                self.used[i] = self.tick;
                self.hits = self.hits.saturating_add(1);
                return Some(i);
            }
            i = i + 1;
        }
        if !force {
            if !self.affordable(deadline) {
                self.blocked = true;
                self.miss_lo = lo;
                self.miss_hi = hi;
                self.budget_miss = self.budget_miss.saturating_add(1);
                return None;
            }
            self.think_solves = self.think_solves + 1;
        }
        let slot: usize = self.victim();
        let before: u128 = deadline.elapsed_ns();
        let t: Vec<i16> = solve_race_config(g);
        let dt0: u64 = whole_ms(deadline.elapsed_ns().saturating_sub(before));
        self.solve_ms = self.solve_ms.saturating_add(dt0);
        self.think_solve_ms = self.think_solve_ms.saturating_add(dt0);
        let dt: u64 = dt0.saturating_add(1);
        if dt > self.build_ms {
            self.build_ms = if dt < 50 {
                dt
            } else {
                50
            };
        }
        proof {
            assert(is_race_table(t@, g@.h, g@.v));
            assert(table_for(t@, lo, hi));
        }
        self.tables.set(slot, Some(t));
        self.key_lo[slot] = lo;
        self.key_hi[slot] = hi;
        self.tick = self.tick.saturating_add(1);
        self.used[slot] = self.tick;
        self.last = Some(slot);
        self.solves = self.solves.saturating_add(1);
        Some(slot)
    }

    /// The value of the game's race in the table of a slot.
    pub fn race_value(&self, slot: usize, g: &AceGame) -> (x: i16)
        requires
            self.wf(),
            g.wf(),
            self.serves(slot as int, g@),
        ensures
            keyed_race_value(g@, x as int),
            x == self.tables[slot as int]->0@[state_index(g@.p0, g@.p1, g@.turn)],
    {
        let at: usize = race_state_index(g.pawn[0], g.pawn[1], g.turn);
        proof {
            let t = self.tables[slot as int]->0@;
            assert(table_for(t, self.key_lo[slot as int], self.key_hi[slot as int]));
            let (h, v) = choose|h: u64, v: u64| #[trigger]
                is_race_table(t, h, v) && wall_lo(h, v) == wall_lo(g@.h, g@.v) && wall_hi(h, v)
                    == wall_hi(g@.h, g@.v);
            let s = RaceState { h, v, p0: g@.p0, p1: g@.p1, turn: g@.turn };
            assert(race_value_is(s, t[state_index(g@.p0, g@.p1, g@.turn)] as int));
        }
        match &self.tables[slot] {
            Some(t) => t[at],
            None => 0,
        }
    }
}

/// Room is made without loss where there is any; otherwise the table that goes is
/// one that no other was used before, and never the one that was used last.
pub proof fn lemma_the_oldest_table_goes(c: RaceCache, k: int, i: int, last: int)
    requires
        c.is_victim(k),
        0 <= i < RC_SLOTS,
        0 <= last < RC_SLOTS,
    ensures
        c.tables[k] is Some ==> c.tables[i] is Some && c.used[k] <= c.used[i],
        c.tables[k] is Some && c.used[i] < c.used[last] ==> k != last,
{
}

/// Budgets only run out: what another table may still cost, it might also have
/// cost with fewer solved, less time spent or less taken for one. Solving never
/// takes more than a quarter of the time.
pub proof fn lemma_budgets_run_out(c: RaceCache, d: RaceCache)
    requires
        d.build_ok ==> c.build_ok,
        c.think_solves <= d.think_solves,
        c.think_solve_ms <= d.think_solve_ms,
        c.build_ms <= d.build_ms,
        c.count_cap == d.count_cap,
        c.time_ms == d.time_ms,
    ensures
        d.in_budget() ==> c.in_budget(),
        d.in_budget() ==> d.build_ok && d.think_solves + 1 <= d.count_cap,
        d.in_budget() && d.time_ms is Some ==> 4 * (d.think_solve_ms + d.build_ms) <= d.time_ms->0,
{
}

/// Positions with the same walls are refused alike, and only those whose walls
/// have the keys that were refused last.
pub proof fn lemma_refusals_go_by_the_walls(c: RaceCache, s: AceState, t: AceState)
    requires
        c.turned_down(s),
    ensures
        s.h == t.h && s.v == t.v ==> c.turned_down(t),
        wall_lo(s.h, s.v) != wall_lo(t.h, t.v) || wall_hi(s.h, s.v) != wall_hi(t.h, t.v)
            ==> !c.turned_down(t),
{
}

} // verus!
