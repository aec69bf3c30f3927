//! Tables of races and the moves that bear them out.

use vstd::prelude::*;

use crate::ace::game::{lemma_pawn_cells, AceState};
use crate::ace::race::{on_goal, race_of, state_index, RaceState};
use crate::ace::racecache::{table_for, wall_hi, wall_lo};
use crate::ace::raceroot::{is_first_best, race_key, table_worth, table_worths};
use crate::ace::racetable::{
    is_race_table, lemma_race_lost_not_won, lemma_race_mono_far, lemma_race_one_result,
    race_lost_in, race_value_is, race_won_in,
};

verus! {

/// The best pawn move by a table has the worth that the table gives the
/// position, and that is a win or a loss.
pub open spec fn borne_out(t: Seq<i16>, s: AceState) -> bool {
    let x = t[state_index(s.p0, s.p1, s.turn)] as int;
    x != 0 && exists|k: int| #[trigger]
        is_first_best(table_worths(t, s), k) && table_worths(t, s)[k] == Some(x)
}

/// So it is by every table of walls with these keys.
pub open spec fn always_borne_out(s: AceState) -> bool {
    forall|t: Seq<i16>| #[trigger]
        table_for(t, wall_lo(s.h, s.v), wall_hi(s.h, s.v)) ==> borne_out(t, s)
}

/// The first best of the worths is one.
pub proof fn lemma_borne_out(t: Seq<i16>, s: AceState, v: int)
    requires
        exists|k: int| #[trigger]
            is_first_best(table_worths(t, s), k) && table_worths(t, s)[k] == Some(v),
        t[state_index(s.p0, s.p1, s.turn)] != 0,
    ensures
        borne_out(t, s) == (v == t[state_index(s.p0, s.p1, s.turn)]),
{
    let w = table_worths(t, s);
    let k = choose|k: int| #[trigger] is_first_best(w, k) && w[k] == Some(v);
    assert forall|j: int| #[trigger] is_first_best(w, j) implies j == k by {
        if j < k {
            assert(race_key(w[j]->0) < race_key(w[k]->0));
        } else if j > k {
            assert(race_key(w[k]->0) < race_key(w[j]->0));
        }
    }
}

/// Where something has a value there is a first best.
proof fn lemma_first_best(vals: Seq<Option<int>>, n: nat) -> (k: int)
    requires
        n <= vals.len(),
    ensures
        k >= 0 ==> is_first_best(vals.subrange(0, n as int), k),
        k < 0 ==> forall|i: int| 0 <= i < n ==> (#[trigger] vals[i]) is None,
    decreases n,
{
    if n == 0 {
        -1
    } else {
        let k = lemma_first_best(vals, (n - 1) as nat);
        let head = vals.subrange(0, n - 1);
        let more = vals.subrange(0, n as int);
        assert forall|i: int| 0 <= i < n - 1 implies #[trigger] more[i] == head[i] by {}
        assert(more[n - 1] == vals[n - 1]);
        if vals[n - 1] is None {
            k
        } else if k < 0 {
            n - 1
        } else if race_key(vals[n - 1]->0) > race_key(vals[k]->0) {
            assert forall|i: int| 0 <= i < n - 1 && (#[trigger] more[i]) is Some implies race_key(
                more[i]->0,
            ) < race_key(more[n - 1]->0) by {
                assert(head[i] is Some);
            }
            n - 1
        } else {
            k
        }
    }
}

/// What a move is worth by the exact table: a win within the plies, or a loss.
proof fn lemma_worth_means(t: Seq<i16>, s: AceState, i: int)
    requires
        s.wf(),
        is_race_table(t, s.h, s.v),
        0 <= i < s.pawn_cells().len(),
    ensures
        ({
            let q = race_of(s);
            let c = s.pawn_cells()[i] as int;
            match table_worth(t, s, s.pawn_cells()[i]) {
                Some(v) => {
                    &&& v != 0
                    &&& -32_769 <= v <= 32_769
                    &&& v > 0 ==> race_won_in(q, v as nat) && (v == 1 || !race_lost_in(
                        q.child(c),
                        (v - 2) as nat,
                    )) && (v == 1 <==> on_goal(s.turn, c))
                    &&& v < 0 ==> !on_goal(s.turn, c) && race_won_in(q.child(c), (-v - 1) as nat)
                        && !race_won_in(q.child(c), (-v - 2) as nat) && v <= -2
                },
                None => !on_goal(s.turn, c) && forall|n: nat|
                    !(#[trigger] race_won_in(q.child(c), n)) && !race_lost_in(q.child(c), n),
            }
        }),
{
    let q = race_of(s);
    let c = s.pawn_cells()[i] as int;
    lemma_pawn_cells(s.h, s.v, s.pawn(s.turn), s.pawn(1 - s.turn));
    assert(q.cells() == s.pawn_cells());
    assert(q.cells()[i] as int == c);
    if on_goal(s.turn, c) {
        assert(race_won_in(q, 1));
    } else {
        let d = q.child(c);
        let at = state_index(d.p0, d.p1, d.turn);
        assert(d == (RaceState { h: s.h, v: s.v, p0: d.p0, p1: d.p1, turn: d.turn }));
        let y = t[at] as int;
        assert(race_value_is(d, y));
        if y < 0 {
            assert(race_lost_in(d, (-y) as nat));
            assert(race_won_in(q, (1 - y) as nat));
            if y == -1 {
                assert(!race_lost_in(d, 0));
            }
        } else if y > 0 {
            assert(race_won_in(d, y as nat));
        } else {
            assert(forall|n: nat| !(#[trigger] race_won_in(d, n)) && !race_lost_in(d, n));
        }
    }
}

/// The worth that the exact value of a race asks for is there, and no move is
/// worth more.
proof fn lemma_best_worth(t: Seq<i16>, s: AceState, x: int) -> (k: int)
    requires
        s.wf(),
        is_race_table(t, s.h, s.v),
        race_value_is(race_of(s), x),
        x != 0,
    ensures
        0 <= k < s.pawn_cells().len(),
        table_worth(t, s, s.pawn_cells()[k]) == Some(x),
        forall|i: int|
            0 <= i < s.pawn_cells().len() ==> (table_worth(t, s, #[trigger] s.pawn_cells()[i])
                matches Some(v) ==> race_key(v) <= race_key(x)),
{
    let q = race_of(s);
    assert(q.cells() == s.pawn_cells());
    if x > 0 {
        let k = choose|k: int|
            0 <= k < q.cells().len() && (on_goal(q.turn, #[trigger] q.cells()[k] as int)
                || race_lost_in(q.child(q.cells()[k] as int), (x - 1) as nat));
        lemma_worth_means(t, s, k);
        let c = q.cells()[k] as int;
        if on_goal(q.turn, c) {
            assert(race_won_in(q, 1));
            if x > 1 {
                lemma_race_mono_far(q, 1, (x - 1) as nat);
            }
        } else {
            if table_worth(t, s, s.pawn_cells()[k]) is None {
                assert(!race_won_in(q.child(c), (x - 1) as nat));
                assert(!race_lost_in(q.child(c), (x - 1) as nat));
            }
            let v = table_worth(t, s, s.pawn_cells()[k])->0;
            if v < 0 {
                lemma_race_lost_not_won(q.child(c), (x - 1) as nat, (-v - 1) as nat);
            }
            if v > x {
                lemma_race_mono_far(q.child(c), (x - 1) as nat, (v - 2) as nat);
            }
            if v < x {
                lemma_race_mono_far(q, v as nat, (x - 1) as nat);
            }
        }
        assert forall|i: int| 0 <= i < s.pawn_cells().len() implies (table_worth(
            t,
            s,
            #[trigger] s.pawn_cells()[i],
        ) matches Some(v) ==> race_key(v) <= race_key(x)) by {
            lemma_worth_means(t, s, i);
            if let Some(v) = table_worth(t, s, s.pawn_cells()[i]) {
                if v > 0 && v < x {
                    lemma_race_mono_far(q, v as nat, (x - 1) as nat);
                }
            }
        }
        k
    } else {
        let n = (-x) as nat;
        assert forall|i: int| 0 <= i < q.cells().len() implies (table_worth(
            t,
            s,
            #[trigger] q.cells()[i],
        ) matches Some(v) && x <= v < 0) by {
            lemma_worth_means(t, s, i);
            let c = q.cells()[i] as int;
            assert(race_won_in(q.child(c), (n - 1) as nat));
            if let Some(v) = table_worth(t, s, q.cells()[i]) {
                if v > 0 {
                    lemma_race_one_result(q, v as nat, n);
                } else if v < x {
                    lemma_race_mono_far(q.child(c), (n - 1) as nat, (-v - 2) as nat);
                }
            }
        }
        if forall|i: int|
            0 <= i < q.cells().len() ==> table_worth(t, s, #[trigger] q.cells()[i]) != Some(x) {
            assert forall|i: int| 0 <= i < q.cells().len() implies !on_goal(
                q.turn,
                #[trigger] q.cells()[i] as int,
            ) && race_won_in(q.child(q.cells()[i] as int), (n - 2) as nat) by {
                lemma_worth_means(t, s, i);
                let v = table_worth(t, s, q.cells()[i])->0;
                assert(x < v < 0);
                lemma_race_mono_far(q.child(q.cells()[i] as int), (-v - 1) as nat, (n - 2) as nat);
            }
            lemma_worth_means(t, s, 0);
            assert(x < table_worth(t, s, q.cells()[0])->0);
            assert(n >= 3);
            assert(((n - 1) - 1) as nat == (n - 2) as nat);
            assert(race_lost_in(q, (n - 1) as nat));
        }
        let k = choose|k: int|
            0 <= k < q.cells().len() && table_worth(t, s, #[trigger] q.cells()[k]) == Some(x);
        k
    }
}

/// The exact table of a race with a winner is borne out by the best pawn move.
pub proof fn lemma_table_bears_out(t: Seq<i16>, s: AceState)
    requires
        s.wf(),
        is_race_table(t, s.h, s.v),
        t[state_index(s.p0, s.p1, s.turn)] != 0,
    ensures
        borne_out(t, s),
{
    let x = t[state_index(s.p0, s.p1, s.turn)] as int;
    let q = race_of(s);
    assert(q == (RaceState { h: s.h, v: s.v, p0: s.p0, p1: s.p1, turn: s.turn }));
    assert(race_value_is(q, x));
    let k = lemma_best_worth(t, s, x);
    let w = table_worths(t, s);
    let b = lemma_first_best(w, w.len());
    assert(w.subrange(0, w.len() as int) =~= w);
    assert(w[k] == Some(x));
    assert(b >= 0);
    assert(is_first_best(w, b));
    assert(w[b] == table_worth(t, s, s.pawn_cells()[b]));
    lemma_worth_means(t, s, b);
    let v = w[b]->0;
    assert(race_key(v) <= race_key(x));
    assert(race_key(x) <= race_key(v));
    assert(v == x);
}

/// Where no other walls share the keys, every table of a race with a winner is
/// borne out.
pub proof fn lemma_always_borne_out(s: AceState, x: int)
    requires
        s.wf(),
        race_value_is(race_of(s), x),
        x != 0,
        forall|h: u64, v: u64|
            #![trigger wall_lo(h, v), wall_hi(h, v)]
            wall_lo(h, v) == wall_lo(s.h, s.v) && wall_hi(h, v) == wall_hi(s.h, s.v) ==> h == s.h
                && v == s.v,
    ensures
        always_borne_out(s),
{
    let q = race_of(s);
    assert forall|t: Seq<i16>| #[trigger]
        table_for(t, wall_lo(s.h, s.v), wall_hi(s.h, s.v)) implies borne_out(t, s) by {
        let (h, v) = choose|h: u64, v: u64| #[trigger]
            is_race_table(t, h, v) && wall_lo(h, v) == wall_lo(s.h, s.v) && wall_hi(h, v)
                == wall_hi(s.h, s.v);
        assert(h == s.h && v == s.v);
        assert(q == (RaceState { h: s.h, v: s.v, p0: s.p0, p1: s.p1, turn: s.turn }));
        let y = t[state_index(s.p0, s.p1, s.turn)] as int;
        assert(race_value_is(q, y));
        if y == 0 {
            assert(forall|n: nat| !(#[trigger] race_won_in(q, n)) && !race_lost_in(q, n));
            assert(!race_won_in(q, x as nat));
            assert(!race_won_in(q, (-x) as nat));
            assert(!race_lost_in(q, (-x) as nat));
        }
        lemma_table_bears_out(t, s);
    }
}

} // verus!
