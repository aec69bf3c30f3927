//! Time budgets.

use std::time::Instant;
use vstd::prelude::*;

verus! {

#[verifier::external_type_specification]
#[verifier::external_body]
pub struct ExInstant(std::time::Instant);

/// `Instant::now`: the time of the call. Nothing is claimed of it.
#[verifier::external_body]
fn now() -> Instant {
    Instant::now()
}

/// `Instant::elapsed`: the time since `t`, here in nanoseconds. Nothing is
/// claimed of it but what its type says.
#[verifier::external_body]
fn nanos_since(t: &Instant) -> u128 {
    t.elapsed().as_nanos()
}

/// Where a clock takes its readings from.
#[derive(Clone, Copy)]
enum Source {
    /// The machine's clock, from a start time on.
    Running(Instant),
    /// No clock: every reading is the same number of nanoseconds.
    Still(u128),
}

/// A clock and a number of milliseconds on it.
#[derive(Clone, Copy)]
pub struct Deadline {
    source: Source,
    budget_ms: u64,
}

impl Deadline {
    /// The budget, in milliseconds.
    pub closed spec fn budget(self) -> u64 {
        self.budget_ms
    }

    /// What every reading gives in nanoseconds, where the clock stands still.
    pub closed spec fn reading(self) -> Option<u128> {
        match self.source {
            Source::Running(_) => None,
            Source::Still(ns) => Some(ns),
        }
    }

    /// No reading passes the budget.
    pub open spec fn on_time(self) -> bool {
        self.reading() matches Some(ns) && ns <= self.budget() * 1_000_000
    }

    /// A budget that runs from now on.
    pub fn new(budget_ms: u64) -> (d: Self)
        ensures
            d.budget() == budget_ms,
            d.reading() is None,
    {
        Deadline { source: Source::Running(now()), budget_ms }
    }

    /// A budget on a clock that stands still at `ns` nanoseconds.
    pub fn still(ns: u128, budget_ms: u64) -> (d: Self)
        ensures
            d.budget() == budget_ms,
            d.reading() == Some(ns),
    {
        Deadline { source: Source::Still(ns), budget_ms }
    }

    /// The same clock with another budget.
    pub fn with_budget(&self, budget_ms: u64) -> (d: Self)
        ensures
            d.budget() == budget_ms,
            d.reading() == self.reading(),
    {
        Deadline { source: self.source, budget_ms }
    }

    /// The budget, in milliseconds.
    pub fn budget_ms(&self) -> (ms: u64)
        ensures
            ms == self.budget(),
    {
        self.budget_ms
    }

    /// Nanoseconds since the start.
    pub fn elapsed_ns(&self) -> (ns: u128)
        ensures
            self.reading() matches Some(t) ==> ns == t,
    {
        match self.source {
            Source::Running(start) => nanos_since(&start),
            Source::Still(ns) => ns,
        }
    }

    /// Milliseconds since the start, rounded down.
    pub fn elapsed_ms(&self) -> (ms: u64)
        ensures
            self.reading() matches Some(t) ==> ms == whole_ms_spec(t),
    {
        whole_ms(self.elapsed_ns())
    }

    /// Whether more time has passed than the budget.
    pub fn passed(&self) -> (r: bool)
        ensures
            self.reading() matches Some(t) ==> r == (t > self.budget() * 1_000_000),
    {
        is_past(self.elapsed_ns(), self.budget_ms)
    }

    /// Whether the budget is used up.
    pub fn used_up(&self) -> (r: bool)
        ensures
            self.reading() matches Some(t) ==> r == (t >= self.budget() * 1_000_000),
    {
        is_used_up(self.elapsed_ns(), self.budget_ms)
    }

    /// Whether `ms` more would pass the budget.
    pub fn too_late_for(&self, ms: u64) -> (r: bool)
        ensures
            self.reading() matches Some(t) ==> r == (t + ms * 1_000_000 > self.budget()
                * 1_000_000),
    {
        is_past_with(self.elapsed_ns(), ms, self.budget_ms)
    }
}

/// Whole milliseconds, as many as fit.
pub open spec fn whole_ms_spec(ns: u128) -> u64 {
    if ns / 1_000_000 > u64::MAX {
        u64::MAX
    } else {
        (ns / 1_000_000) as u64
    }
}

/// Whole milliseconds, as many as fit.
pub fn whole_ms(ns: u128) -> (ms: u64)
    ensures
        ms == whole_ms_spec(ns),
{
    let ms: u128 = ns / 1_000_000;
    if ms > 0xFFFF_FFFF_FFFF_FFFF {
        0xFFFF_FFFF_FFFF_FFFF
    } else {
        ms as u64
    }
}

/// More time than the budget.
pub open spec fn past(ns: u128, budget_ms: u64) -> bool {
    ns > budget_ms * 1_000_000
}

/// At least as much time as the budget.
pub open spec fn spent(ns: u128, budget_ms: u64) -> bool {
    ns >= budget_ms * 1_000_000
}

/// More time than the budget, with `ms` on top.
pub open spec fn past_with(ns: u128, ms: u64, budget_ms: u64) -> bool {
    ns + ms * 1_000_000 > budget_ms * 1_000_000
}

/// More time than the budget.
pub fn is_past(ns: u128, budget_ms: u64) -> (r: bool)
    ensures
        r == past(ns, budget_ms),
{
    ns > budget_ms as u128 * 1_000_000
}

/// At least as much time as the budget.
pub fn is_used_up(ns: u128, budget_ms: u64) -> (r: bool)
    ensures
        r == spent(ns, budget_ms),
{
    ns >= budget_ms as u128 * 1_000_000
}

/// More time than the budget, with `ms` on top.
pub fn is_past_with(ns: u128, ms: u64, budget_ms: u64) -> (r: bool)
    ensures
        r == past_with(ns, ms, budget_ms),
{
    ns.saturating_add(ms as u128 * 1_000_000) > budget_ms as u128 * 1_000_000
}

/// How the questions to a clock relate: what has passed the budget has used it
/// up, and the other way round but for the very moment; with nothing more to do it
/// is too late exactly when it has passed, with more to do no less late; whole
/// milliseconds beyond the budget mean that it has passed, and the other way round
/// up to one.
pub proof fn lemma_clock_questions(ns: u128, budget: u64, ms: u64, longer: u64)
    requires
        ms <= longer,
        ns <= u64::MAX as u128,
    ensures
        past(ns, budget) ==> spent(ns, budget),
        spent(ns, budget) && !past(ns, budget) <==> ns == budget * 1_000_000,
        past_with(ns, 0, budget) == past(ns, budget),
        past_with(ns, ms, budget) ==> past_with(ns, longer, budget),
        ms < budget ==> past_with(ns, ms, budget) == past(ns, (budget - ms) as u64),
        whole_ms_spec(ns) > budget ==> past(ns, budget),
        past(ns, budget) ==> whole_ms_spec(ns) >= budget,
        !past(0, budget),
{
}

} // verus!
