//! Choosing a pawn move when no walls are left.

use vstd::prelude::*;

use crate::ace::certmemo::{race_taken, stm_wins_race};
use crate::ace::eval::RACE_MATE;
use crate::ace::game::{lemma_ace_unmake_restores, lemma_pawn_cells, AceGame, AceState};
use crate::ace::race::{on_goal, state_index};
use crate::ace::racetable::RACE_STATES;

verus! {

/// A race: no walls in hand and nobody home.
pub open spec fn race_root(s: AceState) -> bool {
    s.wl0 == 0 && s.wl1 == 0 && s.p0 >= 9 && s.p1 < 72
}

/// Any win before any loss, the sooner win and the later loss first.
pub open spec fn race_key(v: int) -> int {
    if v > 0 {
        1_000_000 - v
    } else {
        -1_000_000 - v
    }
}

/// The score of a win in `v` plies, or of a loss in `-v`.
pub open spec fn race_score(v: int) -> int {
    if v > 0 {
        RACE_MATE - v
    } else {
        -(RACE_MATE + v)
    }
}

/// The score of a race value.
pub fn score_race(v: i32) -> (r: i32)
    requires
        -40_000 <= v <= 40_000,
    ensures
        r == race_score(v as int),
        -RACE_MATE <= r <= RACE_MATE,
{
    if v > 0 {
        RACE_MATE - v
    } else {
        -(RACE_MATE + v)
    }
}

/// `v` is what the pawn move `c` is worth: 1 if it arrives; otherwise the
/// race after it decides who wins, and that player's distance how fast.
pub open spec fn race_worth(s: AceState, c: i16, v: int) -> bool {
    let t = s.after(c);
    if on_goal(s.turn, c as int) {
        v == 1
    } else {
        ||| race_taken(t, true) && v == -(1 + t.goal_dist(1 - s.turn))
        ||| race_taken(t, false) && v == 1 + t.goal_dist(s.turn)
    }
}

/// `k` is the first of the best among those that have a value.
pub open spec fn is_first_best(vals: Seq<Option<int>>, k: int) -> bool {
    &&& 0 <= k < vals.len()
    &&& vals[k] is Some
    &&& forall|i: int|
        0 <= i < k && (#[trigger] vals[i]) is Some ==> race_key(vals[i]->0) < race_key(vals[k]->0)
    &&& forall|i: int|
        k < i < vals.len() && (#[trigger] vals[i]) is Some ==> race_key(vals[i]->0) <= race_key(
            vals[k]->0,
        )
}

/// The values are those of the pawn moves, none above what a distance can be.
pub open spec fn are_worths(s: AceState, vals: Seq<Option<int>>) -> bool {
    &&& vals.len() == s.pawn_cells().len()
    &&& forall|i: int|
        0 <= i < vals.len() ==> (#[trigger] vals[i]) is Some && race_worth(
            s,
            s.pawn_cells()[i],
            vals[i]->0,
        ) && -256 <= vals[i]->0 <= 256
}

/// `mv` is the best pawn move of the race and worth `v`.
pub open spec fn race_pick(s: AceState, mv: i16, v: int) -> bool {
    exists|vals: Seq<Option<int>>, k: int|
        #![trigger is_first_best(vals, k)]
        are_worths(s, vals) && is_first_best(vals, k) && mv == s.pawn_cells()[k] && v
            == vals[k]->0
}

/// What the pawn move `c` is worth.
fn worth_of(g: &mut AceGame, c: i16) -> (v: i32)
    requires
        old(g).wf(),
        old(g)@.hist.len() < i32::MAX - 2000,
        0 <= c < 81,
    ensures
        final(g).wf(),
        final(g)@ == old(g)@,
        race_worth(old(g)@, c, v as int),
        -256 <= v <= 256,
        v != 0,
{
    let me: usize = g.turn;
    let ghost s = g@;
    proof {
        lemma_ace_unmake_restores(s, c);
    }
    if (me == 0 && c < 9) || (me == 1 && c >= 72) {
        return 1;
    }
    g.make_move(c);
    let stm_wins: bool = stm_wins_race(g);
    let mut mine: [u8; 81] = [255u8; 81];
    let mut theirs: [u8; 81] = [255u8; 81];
    g.compute_dist(me, &mut mine);
    g.compute_dist(1 - me, &mut theirs);
    let v: i32 = if stm_wins {
        -(1 + theirs[g.pawn[1 - me]] as i32)
    } else {
        1 + mine[g.pawn[me]] as i32
    };
    g.unmake_move();
    v
}

/// The best pawn move of a race and what it is worth, if there is a pawn move.
pub fn pick_race_move(g: &mut AceGame) -> (r: Option<(i16, i32)>)
    requires
        old(g).wf(),
        old(g)@.hist.len() < i32::MAX - 2000,
    ensures
        final(g).wf(),
        final(g)@ == old(g)@,
        r is None <==> old(g)@.pawn_cells().len() == 0,
        r matches Some((m, v)) ==> {
            &&& race_pick(old(g)@, m, v as int)
            &&& old(g)@.pawn_cells().contains(m)
            &&& -256 <= v <= 256
            &&& v != 0
        },
{
    let ghost s = g@;
    let ghost cells = s.pawn_cells();
    proof {
        lemma_pawn_cells(s.h, s.v, s.pawn(s.turn), s.pawn(1 - s.turn));
    }
    let mut buf: [i16; 16] = [0i16; 16];
    let n: usize = g.gen_pawn_moves(&mut buf, 0);
    assert forall|i: int| 0 <= i < n implies buf[i] == #[trigger] cells[i] by {}
    let mut best: Option<(i16, i32)> = None;
    let ghost mut vals: Seq<Option<int>> = Seq::empty();
    let ghost mut k: int = 0;
    let mut i: usize = 0;
    while i < n
        invariant
            i <= n <= 16,
            n == cells.len(),
            cells == s.pawn_cells(),
            forall|j: int| 0 <= j < n ==> buf[j] == #[trigger] cells[j] && 0 <= cells[j] < 81,
            g.wf(),
            g@ == s,
            s.hist.len() < i32::MAX - 2000,
            vals.len() == i,
            forall|j: int|
                0 <= j < i ==> (#[trigger] vals[j]) is Some && race_worth(s, cells[j], vals[j]->0)
                    && -256 <= vals[j]->0 <= 256 && vals[j]->0 != 0,
            best is None <==> i == 0,
            best matches Some((m, v)) ==> is_first_best(vals, k) && m == cells[k] && v
                == vals[k]->0,
        decreases n - i,
    {
        let c: i16 = buf[i];
        assert(c == cells[i as int]);
        let v: i32 = worth_of(g, c);
        let ghost before = vals;
        proof {
            vals = vals.push(Some(v as int));
            assert forall|j: int| 0 <= j < i implies #[trigger] vals[j] == before[j] by {}
        }
        let better: bool = match best {
            None => true,
            Some((_, b)) => race_key_of(v) > race_key_of(b),
        };
        if better {
            best = Some((c, v));
            proof {
                k = i as int;
            }
        }
        i += 1;
    }
    proof {
        if best is Some {
            assert(are_worths(s, vals));
            assert(is_first_best(vals, k));
            assert(cells.contains(cells[k]));
        }
    }
    best
}

fn race_key_of(v: i32) -> (r: i32)
    requires
        -40_000 <= v <= 40_000,
    ensures
        r == race_key(v as int),
{
    if v > 0 {
        1_000_000 - v
    } else {
        -1_000_000 - v
    }
}

/// What the pawn move `c` is worth by a table of race values: one ply more
/// than the value after it, with the other sign. Nothing, where the table
/// knows no winner.
pub open spec fn table_worth(t: Seq<i16>, s: AceState, c: i16) -> Option<int> {
    if on_goal(s.turn, c as int) {
        Some(1)
    } else {
        let v = t[if s.turn == 0 {
            state_index(c as int, s.p1, 1)
        } else {
            state_index(s.p0, c as int, 0)
        }];
        if v == 0 {
            None
        } else if v > 0 {
            Some(-(v + 1))
        } else {
            Some(1 - v)
        }
    }
}

/// The worths of all pawn moves by a table.
pub open spec fn table_worths(t: Seq<i16>, s: AceState) -> Seq<Option<int>> {
    Seq::new(s.pawn_cells().len(), |i: int| table_worth(t, s, s.pawn_cells()[i]))
}

/// What the pawn move `c` is worth by a table.
fn worth_in(t: &Vec<i16>, g: &AceGame, c: i16) -> (r: Option<i32>)
    requires
        g.wf(),
        t@.len() == RACE_STATES,
        0 <= c < 81,
    ensures
        (r is Some) == (table_worth(t@, g@, c) is Some),
        r matches Some(v) ==> table_worth(t@, g@, c) == Some(v as int) && -32_768 <= v <= 32_769,
{
    if (g.turn == 0 && c < 9) || (g.turn == 1 && c >= 72) {
        return Some(1);
    }
    let i: usize = if g.turn == 0 {
        (c as usize * 81 + g.pawn[1]) * 2 + 1
    } else {
        (g.pawn[0] * 81 + c as usize) * 2
    };
    let v: i32 = t[i] as i32;
    if v == 0 {
        None
    } else if v > 0 {
        Some(-(v + 1))
    } else {
        Some(1 - v)
    }
}

/// The best pawn move by a table and what it is worth, if any has a worth.
pub fn pick_from_table(t: &Vec<i16>, g: &AceGame) -> (r: Option<(i16, i32)>)
    requires
        g.wf(),
        t@.len() == RACE_STATES,
    ensures
        r is None <==> forall|i: int|
            0 <= i < g@.pawn_cells().len() ==> (#[trigger] table_worths(t@, g@)[i]) is None,
        r matches Some((m, v)) ==> g@.pawn_cells().contains(m) && exists|k: int|
            #![trigger is_first_best(table_worths(t@, g@), k)]
            is_first_best(table_worths(t@, g@), k) && m == g@.pawn_cells()[k]
                && table_worths(t@, g@)[k] == Some(v as int),
        r matches Some((m, v)) ==> -32_768 <= v <= 32_769,
{
    let ghost s = g@;
    let ghost cells = s.pawn_cells();
    let ghost vals = table_worths(t@, s);
    proof {
        lemma_pawn_cells(s.h, s.v, s.pawn(s.turn), s.pawn(1 - s.turn));
    }
    let mut buf: [i16; 16] = [0i16; 16];
    let n: usize = g.gen_pawn_moves(&mut buf, 0);
    assert forall|i: int| 0 <= i < n implies buf[i] == #[trigger] cells[i] by {}
    let mut best: Option<(i16, i32)> = None;
    let ghost mut k: int = 0;
    let mut i: usize = 0;
    while i < n
        invariant
            i <= n <= 16,
            n == cells.len(),
            g.wf(),
            g@ == s,
            t@.len() == RACE_STATES,
            cells == s.pawn_cells(),
            vals == table_worths(t@, s),
            forall|j: int| 0 <= j < n ==> buf[j] == #[trigger] cells[j] && 0 <= cells[j] < 81,
            best is None ==> forall|j: int| 0 <= j < i ==> (#[trigger] vals[j]) is None,
            best matches Some((m, v)) ==> {
                &&& 0 <= k < i
                &&& is_first_best(vals.subrange(0, i as int), k)
                &&& m == cells[k]
                &&& vals[k] == Some(v as int)
                &&& -32_768 <= v <= 32_769
            },
        decreases n - i,
    {
        let c: i16 = buf[i];
        assert(c == cells[i as int]);
        assert(vals[i as int] == table_worth(t@, s, c));
        let ghost head = vals.subrange(0, i as int);
        let ghost more = vals.subrange(0, i + 1);
        assert forall|j: int| 0 <= j < i implies head[j] == #[trigger] more[j] && head[j] == vals[j] by {}
        assert(more[i as int] == vals[i as int]);
        if let Some(v) = worth_in(t, g, c) {
            let better: bool = match best {
                None => true,
                Some((_, b)) => race_key_of(v) > race_key_of(b),
            };
            if better {
                best = Some((c, v));
                proof {
                    k = i as int;
                }
            }
        }
        assert(best is Some ==> is_first_best(more, k));
        i += 1;
    }
    proof {
        assert(vals.subrange(0, n as int) =~= vals);
        if best is Some {
            assert(is_first_best(vals, k));
            assert(cells.contains(cells[k]));
        }
    }
    best
}

} // verus!
