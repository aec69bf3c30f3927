//! Exact tables of pawn races without walls in hand, one value per pair of
//! cells and turn.

use vstd::prelude::*;

use crate::ace::game::{lemma_pawn_cells, pawn_cells_of, AceGame};
use crate::ace::race::{on_goal, state_index, RaceState};

verus! {

/// Values of a table.
pub const RACE_STATES: usize = 13122;

/// The side to move can force its arrival within `n` plies.
pub open spec fn race_won_in(s: RaceState, n: nat) -> bool
    decreases n,
{
    n > 0 && exists|i: int|
        0 <= i < s.cells().len() && (on_goal(s.turn, #[trigger] s.cells()[i] as int)
            || race_lost_in(s.child(s.cells()[i] as int), (n - 1) as nat))
}

/// The side to move can move, and whatever it does the opponent forces its
/// arrival within `n` plies in all.
pub open spec fn race_lost_in(s: RaceState, n: nat) -> bool
    decreases n,
{
    &&& n > 0
    &&& s.cells().len() > 0
    &&& forall|i: int|
        0 <= i < s.cells().len() ==> !on_goal(s.turn, #[trigger] s.cells()[i] as int)
            && race_won_in(s.child(s.cells()[i] as int), (n - 1) as nat)
}

/// The value of the race within `n` plies: positive for a win, negative for a
/// loss, in either case counting the plies of quickest win and slowest loss; 0
/// where neither is forced.
pub open spec fn race_level(s: RaceState, n: nat) -> int
    decreases n,
{
    if n == 0 {
        0
    } else {
        let prev = race_level(s, (n - 1) as nat);
        if prev != 0 {
            prev
        } else if race_won_in(s, n) {
            n as int
        } else if race_lost_in(s, n) {
            -(n as int)
        } else {
            0
        }
    }
}

/// `vals` holds the value of every race over the walls.
pub open spec fn is_race_table(vals: Seq<i16>, h: u64, v: u64) -> bool {
    &&& vals.len() == RACE_STATES
    &&& forall|p0: int, p1: int, turn: int|
        #![trigger state_index(p0, p1, turn)]
        0 <= p0 < 81 && 0 <= p1 < 81 && 0 <= turn < 2 ==> race_value_is(
            RaceState { h, v, p0, p1, turn },
            vals[state_index(p0, p1, turn)] as int,
        )
}

/// `x` is the value of the race: the plies of the quickest forced win, minus
/// those of the slowest forced loss, 0 where neither side can force it.
pub open spec fn race_value_is(s: RaceState, x: int) -> bool {
    if x > 0 {
        race_won_in(s, x as nat) && !race_won_in(s, (x - 1) as nat)
    } else if x < 0 {
        race_lost_in(s, (-x) as nat) && !race_lost_in(s, (-x - 1) as nat)
    } else {
        forall|n: nat| !(#[trigger] race_won_in(s, n)) && !race_lost_in(s, n)
    }
}

/// More plies keep a forced result.
proof fn lemma_race_mono(s: RaceState, n: nat)
    ensures
        race_won_in(s, n) ==> race_won_in(s, n + 1),
        race_lost_in(s, n) ==> race_lost_in(s, n + 1),
    decreases n,
{
    if race_won_in(s, n) {
        let i = choose|i: int|
            0 <= i < s.cells().len() && (on_goal(s.turn, #[trigger] s.cells()[i] as int)
                || race_lost_in(s.child(s.cells()[i] as int), (n - 1) as nat));
        if !on_goal(s.turn, s.cells()[i] as int) {
            lemma_race_mono(s.child(s.cells()[i] as int), (n - 1) as nat);
        }
        assert(on_goal(s.turn, s.cells()[i] as int) || race_lost_in(
            s.child(s.cells()[i] as int),
            n,
        ));
    }
    if race_lost_in(s, n) {
        assert forall|i: int| 0 <= i < s.cells().len() implies !on_goal(
            s.turn,
            #[trigger] s.cells()[i] as int,
        ) && race_won_in(s.child(s.cells()[i] as int), n) by {
            lemma_race_mono(s.child(s.cells()[i] as int), (n - 1) as nat);
        }
    }
}

pub proof fn lemma_race_mono_far(s: RaceState, n: nat, m: nat)
    requires
        n <= m,
    ensures
        race_won_in(s, n) ==> race_won_in(s, m),
        race_lost_in(s, n) ==> race_lost_in(s, m),
    decreases m - n,
{
    if n < m {
        lemma_race_mono_far(s, n, (m - 1) as nat);
        lemma_race_mono(s, (m - 1) as nat);
    }
}

/// No race is both won and lost.
pub proof fn lemma_race_one_result(s: RaceState, n: nat, m: nat)
    requires
        race_won_in(s, n),
    ensures
        !race_lost_in(s, m),
    decreases n,
{
    if race_lost_in(s, m) {
        let i = choose|i: int|
            0 <= i < s.cells().len() && (on_goal(s.turn, #[trigger] s.cells()[i] as int)
                || race_lost_in(s.child(s.cells()[i] as int), (n - 1) as nat));
        let c = s.child(s.cells()[i] as int);
        assert(race_won_in(c, (m - 1) as nat));
        lemma_race_lost_not_won(c, (n - 1) as nat, (m - 1) as nat);
    }
}

pub proof fn lemma_race_lost_not_won(s: RaceState, n: nat, m: nat)
    requires
        race_lost_in(s, n),
    ensures
        !race_won_in(s, m),
    decreases n,
{
    if race_won_in(s, m) {
        let i = choose|i: int|
            0 <= i < s.cells().len() && (on_goal(s.turn, #[trigger] s.cells()[i] as int)
                || race_lost_in(s.child(s.cells()[i] as int), (m - 1) as nat));
        let c = s.child(s.cells()[i] as int);
        assert(race_won_in(c, (n - 1) as nat));
        assert(race_lost_in(c, (m - 1) as nat));
        lemma_race_one_result(c, (n - 1) as nat, (m - 1) as nat);
    }
}

/// What a level says.
proof fn lemma_level(s: RaceState, n: nat)
    ensures
        race_level(s, n) > 0 <==> race_won_in(s, n),
        race_level(s, n) < 0 <==> race_lost_in(s, n),
        -(n as int) <= race_level(s, n) <= n,
        race_level(s, n) > 0 ==> race_value_is(s, race_level(s, n)),
        race_level(s, n) < 0 ==> race_value_is(s, race_level(s, n)),
    decreases n,
{
    if n > 0 {
        let m = (n - 1) as nat;
        lemma_level(s, m);
        lemma_race_mono(s, m);
        if race_won_in(s, n) {
            lemma_race_one_result(s, n, n);
            lemma_race_one_result(s, n, m);
        }
        if race_lost_in(s, n) {
            lemma_race_lost_not_won(s, n, n);
            lemma_race_lost_not_won(s, n, m);
        }
    }
}

/// A level below the limit was there one ply earlier.
proof fn lemma_level_earlier(s: RaceState, n: nat)
    requires
        n > 0,
    ensures
        race_level(s, n) == race_level(s, (n - 1) as nat) || race_level(s, n) == n || race_level(
            s,
            n,
        ) == -(n as int),
        race_level(s, (n - 1) as nat) != 0 ==> race_level(s, n) == race_level(s, (n - 1) as nat),
        -(n as int) < race_level(s, (n - 1) as nat) < n,
{
    lemma_level(s, (n - 1) as nat);
}

/// Level `k` brings nothing new over the walls.
spec fn at_rest(h: u64, v: u64, k: nat) -> bool {
    forall|s: RaceState|
        s.wf() && s.h == h && s.v == v ==> #[trigger] race_level(s, k) == race_level(
            s,
            (k - 1) as nat,
        )
}

/// Once a level brings nothing new anywhere, no later one does.
proof fn lemma_level_rest(h: u64, v: u64, k: nat, s: RaceState, n: nat)
    requires
        k > 0,
        n >= k - 1,
        s.wf(),
        s.h == h,
        s.v == v,
        at_rest(h, v, k),
    ensures
        race_won_in(s, n) == race_won_in(s, (k - 1) as nat),
        race_lost_in(s, n) == race_lost_in(s, (k - 1) as nat),
    decreases n,
{
    let m = (k - 1) as nat;
    if n > m {
        let p = (n - 1) as nat;
        lemma_pawn_cells(s.h, s.v, s.pawn(s.turn), s.pawn(1 - s.turn));
        assert(race_level(s, k) == race_level(s, m));
        lemma_level(s, k);
        lemma_level(s, m);
        lemma_race_mono_far(s, m, n);
        assert forall|i: int| 0 <= i < s.cells().len() implies race_won_in(
            s.child(#[trigger] s.cells()[i] as int),
            p,
        ) == race_won_in(s.child(s.cells()[i] as int), m) && race_lost_in(
            s.child(s.cells()[i] as int),
            p,
        ) == race_lost_in(s.child(s.cells()[i] as int), m) by {
            lemma_level_rest(h, v, k, s.child(s.cells()[i] as int), p);
        }
        if race_won_in(s, n) {
            let i = choose|i: int|
                0 <= i < s.cells().len() && (on_goal(s.turn, #[trigger] s.cells()[i] as int)
                    || race_lost_in(s.child(s.cells()[i] as int), p));
            assert(on_goal(s.turn, s.cells()[i] as int) || race_lost_in(
                s.child(s.cells()[i] as int),
                m,
            ));
            assert(race_won_in(s, k));
        }
        if race_lost_in(s, n) {
            assert forall|i: int| 0 <= i < s.cells().len() implies !on_goal(
                s.turn,
                #[trigger] s.cells()[i] as int,
            ) && race_won_in(s.child(s.cells()[i] as int), m) by {}
            assert(race_lost_in(s, k));
        }
    }
}

/// How many of the first `n` values are 0.
spec fn open_count(vals: Seq<i16>, n: int) -> int
    decreases n,
{
    if n <= 0 {
        0
    } else {
        open_count(vals, n - 1) + (if vals[n - 1] == 0 {
            1int
        } else {
            0int
        })
    }
}

proof fn lemma_open_count(vals: Seq<i16>, n: int)
    requires
        n >= 0,
    ensures
        0 <= open_count(vals, n) <= n,
    decreases n,
{
    if n > 0 {
        lemma_open_count(vals, n - 1);
    }
}

proof fn lemma_open_update(vals: Seq<i16>, at: int, x: i16, n: int)
    requires
        0 <= at < vals.len(),
        0 <= n <= vals.len(),
        vals[at] == 0,
        x != 0,
    ensures
        open_count(vals.update(at, x), n) == open_count(vals, n) - (if at < n {
            1int
        } else {
            0int
        }),
    decreases n,
{
    if n > 0 {
        lemma_open_update(vals, at, x, n - 1);
    }
}

/// The race state of an index.
spec fn state_at(h: u64, v: u64, i: int) -> RaceState {
    RaceState { h, v, p0: i / 162, p1: i / 2 % 81, turn: i % 2 }
}

proof fn lemma_state_at(h: u64, v: u64, p0: int, p1: int, turn: int)
    requires
        0 <= p0 < 81,
        0 <= p1 < 81,
        0 <= turn < 2,
    ensures
        0 <= state_index(p0, p1, turn) < RACE_STATES,
        state_at(h, v, state_index(p0, p1, turn)) == (RaceState { h, v, p0, p1, turn }),
{
}

proof fn lemma_index_at(i: int)
    requires
        0 <= i < RACE_STATES,
    ensures
        0 <= i / 162 < 81,
        0 <= i / 2 % 81 < 81,
        0 <= i % 2 < 2,
        state_index(i / 162, i / 2 % 81, i % 2) == i,
{
}

/// The moves from every pair of cells.
spec fn all_moves(moves: Seq<Vec<i16>>, h: u64, v: u64) -> bool {
    &&& moves.len() == 6561
    &&& forall|i: int|
        0 <= i < 6561 ==> (#[trigger] moves[i])@ == pawn_cells_of(h, v, i / 81, i % 81)
}

fn collect_moves(g: &AceGame) -> (moves: Vec<Vec<i16>>)
    requires
        g.wf(),
    ensures
        all_moves(moves@, g@.h, g@.v),
{
    let mut scratch: AceGame = AceGame::new();
    scratch.load_walls(g.h_word, g.v_word);
    let mut moves: Vec<Vec<i16>> = Vec::new();
    let mut i: usize = 0;
    while i < 6561
        invariant
            i <= 6561,
            moves@.len() == i,
            scratch.wf(),
            scratch@.h == g@.h,
            scratch@.v == g@.v,
            scratch@.turn == 0,
            forall|k: int|
                0 <= k < i ==> (#[trigger] moves@[k])@ == pawn_cells_of(
                    g@.h,
                    g@.v,
                    k / 81,
                    k % 81,
                ),
        decreases 6561 - i,
    {
        scratch.pawn = [i / 81, i % 81];
        let mut buf: [i16; 8] = [0i16; 8];
        proof {
            lemma_pawn_cells(g@.h, g@.v, i as int / 81, i as int % 81);
        }
        let n: usize = scratch.gen_pawn_moves(&mut buf, 0);
        let mut v: Vec<i16> = Vec::new();
        let mut k: usize = 0;
        while k < n
            invariant
                k <= n,
                n == pawn_cells_of(g@.h, g@.v, i as int / 81, i as int % 81).len(),
                n <= 5,
                v@.len() == k,
                forall|t: int|
                    0 <= t < n ==> #[trigger] buf[t] == pawn_cells_of(
                        g@.h,
                        g@.v,
                        i as int / 81,
                        i as int % 81,
                    )[t],
                forall|t: int| 0 <= t < k ==> #[trigger] v@[t] == buf[t],
            decreases n - k,
        {
            v.push(buf[k]);
            k = k + 1;
        }
        assert(v@ =~= pawn_cells_of(g@.h, g@.v, i as int / 81, i as int % 81));
        moves.push(v);
        i = i + 1;
    }
    moves
}

/// During sweep `k`: the first `m` values are of level `k`, the others of the
/// level before.
spec fn swept(vals: Seq<i16>, h: u64, v: u64, k: nat, m: int) -> bool {
    &&& vals.len() == RACE_STATES
    &&& forall|i: int|
        0 <= i < RACE_STATES ==> #[trigger] vals[i] == race_level(
            state_at(h, v, i),
            if i < m {
                k
            } else {
                (k - 1) as nat
            },
        )
}

/// The value of one open race at level `k`.
fn settle(vals: &Vec<i16>, moves: &Vec<Vec<i16>>, at: usize, k: i16, Ghost(h): Ghost<u64>, Ghost(v): Ghost<u64>) -> (x: i16)
    requires
        at < RACE_STATES,
        0 < k < 20000,
        all_moves(moves@, h, v),
        swept(vals@, h, v, k as nat, at as int),
        vals@[at as int] == 0,
    ensures
        x == race_level(state_at(h, v, at as int), k as nat),
{
    let p0: usize = at / 162;
    let p1: usize = at / 2 % 81;
    let turn: usize = at % 2;
    let from: usize = if turn == 0 {
        p0
    } else {
        p1
    };
    let opp: usize = if turn == 0 {
        p1
    } else {
        p0
    };
    let ghost s = state_at(h, v, at as int);
    let ghost kk = (k - 1) as nat;
    proof {
        lemma_index_at(at as int);
        lemma_pawn_cells(h, v, from as int, opp as int);
        assert(moves@[(from * 81 + opp) as int]@ == pawn_cells_of(
            h,
            v,
            (from * 81 + opp) as int / 81,
            (from * 81 + opp) as int % 81,
        ));
        assert(s.cells() == pawn_cells_of(h, v, from as int, opp as int));
        lemma_level(s, k as nat);
    }
    let list: &Vec<i16> = &moves[from * 81 + opp];
    let n: usize = list.len();
    let mut all_won: bool = n > 0;
    let mut i: usize = 0;
    while i < n
        invariant
            i <= n,
            n == s.cells().len(),
            list@ == s.cells(),
            s == state_at(h, v, at as int),
            s.wf(),
            s.p0 == p0,
            s.p1 == p1,
            s.turn == turn,
            s.h == h,
            s.v == v,
            0 < k < 20000,
            kk == k - 1,
            swept(vals@, h, v, k as nat, at as int),
            race_level(s, kk) == 0,
            n <= 5,
            forall|j: int| 0 <= j < n ==> 0 <= #[trigger] s.cells()[j] < 81,
            all_won ==> n > 0,
            all_won == (n > 0 && forall|j: int|
                0 <= j < i ==> !on_goal(s.turn, #[trigger] s.cells()[j] as int) && race_won_in(
                    s.child(s.cells()[j] as int),
                    kk,
                )),
            forall|j: int|
                0 <= j < i ==> !on_goal(s.turn, #[trigger] s.cells()[j] as int) && !race_lost_in(
                    s.child(s.cells()[j] as int),
                    kk,
                ),
        decreases n - i,
    {
        let c: usize = list[i] as usize;
        assert(c == s.cells()[i as int]);
        let home: bool = if turn == 0 {
            c < 9
        } else {
            c >= 72
        };
        if home {
            proof {
                assert(on_goal(s.turn, s.cells()[i as int] as int));
                assert(race_won_in(s, k as nat));
            }
            return k;
        }
        let child: usize = if turn == 0 {
            (c * 81 + p1) * 2 + 1
        } else {
            (p0 * 81 + c) * 2
        };
        proof {
            let ch = s.child(c as int);
            lemma_state_at(h, v, ch.p0, ch.p1, ch.turn);
            assert(child == state_index(ch.p0, ch.p1, ch.turn));
            assert(state_at(h, v, child as int) == ch);
            lemma_level(ch, k as nat);
            lemma_level(ch, kk);
            lemma_level_earlier(ch, k as nat);
        }
        let x: i16 = vals[child];
        if x < 0 && -x < k {
            proof {
                assert(race_lost_in(s.child(s.cells()[i as int] as int), kk));
                assert(race_won_in(s, k as nat));
            }
            return k;
        }
        if !(x > 0 && x < k) {
            all_won = false;
        }
        i = i + 1;
    }
    if all_won {
        proof {
            assert(race_lost_in(s, k as nat));
            lemma_race_lost_not_won(s, k as nat, k as nat);
        }
        -k
    } else {
        proof {
            assert(!race_won_in(s, k as nat));
            assert(!race_lost_in(s, k as nat));
        }
        0
    }
}

/// Solves the races of all pairs of cells over the walls of a game.
pub fn solve_race_config(g: &AceGame) -> (vals: Vec<i16>)
    requires
        g.wf(),
    ensures
        is_race_table(vals@, g@.h, g@.v),
{
    let ghost h = g@.h;
    let ghost v = g@.v;
    let moves: Vec<Vec<i16>> = collect_moves(g);
    let mut vals: Vec<i16> = vec![0i16; 13122];
    let mut k: i16 = 1;
    let mut fresh: bool = true;
    proof {
        lemma_open_count(vals@, 13122);
    }
    while fresh
        invariant
            1 <= k,
            h == g@.h,
            v == g@.v,
            all_moves(moves@, h, v),
            k + open_count(vals@, 13122) <= 13123 + (if fresh {
                0int
            } else {
                1int
            }),
            fresh ==> swept(vals@, h, v, k as nat, 0),
            !fresh ==> is_race_table(vals@, h, v),
        decreases
                open_count(vals@, 13122),
                if fresh {
                    1int
                } else {
                    0int
                },
    {
        proof {
            lemma_open_count(vals@, 13122);
        }
        let ghost start = vals@;
        fresh = false;
        let mut at: usize = 0;
        while at < 13122
            invariant
                at <= 13122,
                1 <= k <= 13123,
                all_moves(moves@, h, v),
                swept(start, h, v, k as nat, 0),
                swept(vals@, h, v, k as nat, at as int),
                fresh ==> open_count(vals@, 13122) < open_count(start, 13122),
                !fresh ==> vals@ == start,
            decreases 13122 - at,
        {
            let ghost before = vals@;
            if vals[at] == 0 {
                let x: i16 = settle(&vals, &moves, at, k, Ghost(h), Ghost(v));
                if x != 0 {
                    proof {
                        lemma_open_update(vals@, at as int, x, 13122);
                    }
                    vals.set(at, x);
                    fresh = true;
                }
            }
            proof {
                lemma_level_earlier(state_at(h, v, at as int), k as nat);
                assert forall|i: int| 0 <= i < RACE_STATES implies #[trigger] vals@[i]
                    == race_level(
                    state_at(h, v, i),
                    if i < at + 1 {
                        k as nat
                    } else {
                        (k - 1) as nat
                    },
                ) by {
                    assert(before[i] == race_level(
                        state_at(h, v, i),
                        if i < at {
                            k as nat
                        } else {
                            (k - 1) as nat
                        },
                    ));
                }
            }
            at = at + 1;
        }
        proof {
            lemma_open_count(vals@, 13122);
            if !fresh {
                lemma_finished(vals@, h, v, k as nat);
            } else {
                assert forall|i: int| 0 <= i < RACE_STATES implies #[trigger] vals@[i]
                    == race_level(
                    state_at(h, v, i),
                    if i < 0 {
                        (k + 1) as nat
                    } else {
                        k as nat
                    },
                ) by {}
            }
        }
        k = k + 1;
    }
    vals
}

/// A sweep that changed nothing leaves the finished table.
proof fn lemma_finished(vals: Seq<i16>, h: u64, v: u64, k: nat)
    requires
        k > 0,
        swept(vals, h, v, k, 0),
        swept(vals, h, v, k, RACE_STATES as int),
    ensures
        is_race_table(vals, h, v),
{
    let m = (k - 1) as nat;
    assert forall|s: RaceState| s.wf() && s.h == h && s.v == v implies #[trigger] race_level(s, k)
        == race_level(s, m) by {
        lemma_state_at(h, v, s.p0, s.p1, s.turn);
        let i = state_index(s.p0, s.p1, s.turn);
        assert(state_at(h, v, i) == s);
        assert(vals[i] == race_level(state_at(h, v, i), k));
        assert(vals[i] == race_level(state_at(h, v, i), m));
    }
    assert forall|p0: int, p1: int, turn: int|
        #![trigger state_index(p0, p1, turn)]
        0 <= p0 < 81 && 0 <= p1 < 81 && 0 <= turn < 2 implies race_value_is(
        RaceState { h, v, p0, p1, turn },
        vals[state_index(p0, p1, turn)] as int,
    ) by {
        lemma_state_at(h, v, p0, p1, turn);
        let i = state_index(p0, p1, turn);
        let s = RaceState { h, v, p0, p1, turn };
        assert(vals[i] == race_level(state_at(h, v, i), m));
        lemma_level(s, m);
        if vals[i] == 0 {
            assert forall|n: nat| !(#[trigger] race_won_in(s, n)) && !race_lost_in(s, n) by {
                if n >= m {
                    lemma_level_rest(h, v, k, s, n);
                } else {
                    lemma_race_mono_far(s, n, m);
                }
            }
        }
    }
}

} // verus!
