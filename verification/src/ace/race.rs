//! Pawn races once both hands are empty.
//!
//! The resolver plays only moves that bring the mover closer to its goal row.
//! In that restricted game every line ends, so each state has a value; the
//! resolver's verdicts are checked against it.

use std::collections::HashMap;
use vstd::prelude::*;

use crate::ace::game::{
    grid_player, lemma_ace_unmake_restores, lemma_pawn_cells, pawn_cells_of, AceGame, AceState,
};
use crate::path::distance::is_field;
use crate::path::graph::{dist, goal_squares, only, wall_steps};
use crate::util::bits::bit64;
use crate::util::bits::{lemma_bits64, lemma_one64};

verus! {

broadcast use vstd::std_specs::hash::group_hash_axioms;

/// Exact race proof from the view of the side to move.
#[derive(Debug, Clone, Copy, PartialEq, Eq, Structural)]
pub enum RaceProof {
    /// The side to move wins.
    Win,
    /// The side to move loses.
    Loss,
    /// No certificate; this is not a draw.
    Unknown,
}

pub const RACE_STATE_COUNT: usize = 13122;

pub const RACE_VISITING_WORDS: usize = 206;

/// Ply cap of the resolver.
pub const RACE_RESOLVER_DEPTH_CAP: u32 = 128;

/// What a race depends on.
#[verifier::ext_equal]
pub struct RaceState {
    pub h: u64,
    pub v: u64,
    pub p0: int,
    pub p1: int,
    pub turn: int,
}

impl RaceState {
    pub open spec fn pawn(self, p: int) -> int {
        if p == 0 {
            self.p0
        } else {
            self.p1
        }
    }

    pub open spec fn wf(self) -> bool {
        0 <= self.p0 < 81 && 0 <= self.p1 < 81 && 0 <= self.turn < 2
    }

    /// Distance of a cell to the goal row of player `p`.
    pub open spec fn goal_dist_from(self, p: int, cell: int) -> int {
        dist(wall_steps(self.h, self.v), goal_squares(grid_player(p)), cell)
    }

    /// The sum of both players' distances; every race move lowers it.
    pub open spec fn rank(self) -> int {
        self.goal_dist_from(0, self.p0) + self.goal_dist_from(1, self.p1)
    }

    /// The cells that the player on turn can move to.
    pub open spec fn cells(self) -> Seq<i16> {
        pawn_cells_of(self.h, self.v, self.pawn(self.turn), self.pawn(1 - self.turn))
    }

    /// Moving to `cell` brings the mover closer.
    pub open spec fn closer(self, cell: int) -> bool {
        self.goal_dist_from(self.turn, cell) < self.goal_dist_from(
            self.turn,
            self.pawn(self.turn),
        )
    }

    pub open spec fn child(self, cell: int) -> RaceState {
        RaceState {
            p0: if self.turn == 0 {
                cell
            } else {
                self.p0
            },
            p1: if self.turn == 0 {
                self.p1
            } else {
                cell
            },
            turn: 1 - self.turn,
            ..self
        }
    }
}

/// The race of a game.
pub open spec fn race_of(s: AceState) -> RaceState {
    RaceState { h: s.h, v: s.v, p0: s.p0, p1: s.p1, turn: s.turn }
}

/// `cell` is on the goal row of player `p`.
pub open spec fn on_goal(p: int, cell: int) -> bool {
    if p == 0 {
        cell < 9
    } else {
        cell >= 72
    }
}

/// The side to move wins the restricted race within `n` plies: it is there,
/// or some move closer gets there or leaves the opponent without a win.
pub open spec fn race_wins(s: RaceState, n: nat) -> bool
    decreases n,
{
    if on_goal(s.turn, s.pawn(s.turn)) {
        true
    } else if n == 0 {
        false
    } else {
        exists|i: int|
            0 <= i < s.cells().len() && s.closer(#[trigger] s.cells()[i] as int) && (on_goal(
                s.turn,
                s.cells()[i] as int,
            ) || !race_wins(s.child(s.cells()[i] as int), (n - 1) as nat))
    }
}

/// The side to move wins the restricted race.
pub open spec fn race_value(s: RaceState) -> bool {
    race_wins(s, s.rank() as nat)
}

/// Distances are not negative.
proof fn lemma_rank_nonneg(s: RaceState)
    ensures
        s.rank() >= 0,
        forall|p: int, c: int| #[trigger] s.goal_dist_from(p, c) >= 0,
{
    assert forall|p: int, c: int| #[trigger] s.goal_dist_from(p, c) >= 0 by {
        let st = wall_steps(s.h, s.v);
        let g = goal_squares(grid_player(p));
        if crate::path::graph::reach(st, g, c) {
            crate::path::graph::lemma_dist_reach(st, g, c);
        }
    }
}

pub proof fn lemma_child_rank(s: RaceState, cell: int)
    requires
        s.wf(),
        s.closer(cell),
    ensures
        s.child(cell).rank() < s.rank(),
        s.child(cell).rank() >= 0,
{
    lemma_rank_nonneg(s.child(cell));
}

/// Once the plies suffice, more do not matter.
proof fn lemma_race_stable(s: RaceState, n: nat, m: nat)
    requires
        s.wf(),
        n >= s.rank(),
        m >= s.rank(),
    ensures
        race_wins(s, n) == race_wins(s, m),
    decreases s.rank(),
{
    lemma_rank_nonneg(s);
    if !on_goal(s.turn, s.pawn(s.turn)) {
        lemma_cells_on_board(s);
        assert forall|i: int|
            0 <= i < s.cells().len() && s.closer(#[trigger] s.cells()[i] as int) implies n > 0 && m
            > 0 && race_wins(s.child(s.cells()[i] as int), (n - 1) as nat) == race_wins(
            s.child(s.cells()[i] as int),
            (m - 1) as nat,
        ) by {
            lemma_child_rank(s, s.cells()[i] as int);
            lemma_race_stable(s.child(s.cells()[i] as int), (n - 1) as nat, (m - 1) as nat);
        }
    }
}

/// Moves stay on the board.
pub proof fn lemma_cells_on_board(s: RaceState)
    requires
        s.wf(),
    ensures
        forall|i: int| 0 <= i < s.cells().len() ==> 0 <= #[trigger] s.cells()[i] < 81,
        s.cells().len() <= 5,
{
    lemma_pawn_cells(s.h, s.v, s.pawn(s.turn), s.pawn(1 - s.turn));
}

/// One step of the value: what the moves closer say.
pub proof fn lemma_race_step(s: RaceState)
    requires
        s.wf(),
        !on_goal(s.turn, s.pawn(s.turn)),
    ensures
        race_value(s) == exists|i: int|
            0 <= i < s.cells().len() && s.closer(#[trigger] s.cells()[i] as int) && (on_goal(
                s.turn,
                s.cells()[i] as int,
            ) || !race_value(s.child(s.cells()[i] as int))),
{
    lemma_rank_nonneg(s);
    lemma_cells_on_board(s);
    let n = s.rank() as nat;
    assert forall|i: int| 0 <= i < s.cells().len() && s.closer(#[trigger] s.cells()[i] as int) implies n
        > 0 && race_wins(s.child(s.cells()[i] as int), (n - 1) as nat) == race_value(
        s.child(s.cells()[i] as int),
    ) by {
        let c = s.child(s.cells()[i] as int);
        lemma_child_rank(s, s.cells()[i] as int);
        lemma_race_stable(c, (n - 1) as nat, c.rank() as nat);
    }
}

// --- resolver ---

/// Index of a race state.
pub open spec fn state_index(p0: int, p1: int, turn: int) -> int {
    (p0 * 81 + p1) * 2 + turn
}

/// Index of a race state.
#[inline]
pub fn race_state_index(p0: usize, p1: usize, turn: usize) -> (i: usize)
    requires
        p0 < 81,
        p1 < 81,
        turn < 2,
    ensures
        i == state_index(p0 as int, p1 as int, turn as int),
        i < RACE_STATE_COUNT,
{
    (p0 * 81 + p1) * 2 + turn
}

/// Different states have different indices.
pub proof fn lemma_state_index_injective(p0: int, p1: int, t: int, q0: int, q1: int, u: int)
    requires
        0 <= p0 < 81,
        0 <= p1 < 81,
        0 <= t < 2,
        0 <= q0 < 81,
        0 <= q1 < 81,
        0 <= u < 2,
        state_index(p0, p1, t) == state_index(q0, q1, u),
    ensures
        p0 == q0,
        p1 == q1,
        t == u,
{
}

/// The set of words holds index `i`.
pub open spec fn visited(words: Seq<u64>, i: int) -> bool {
    bit64(words[i / 64], i % 64)
}

#[inline]
pub fn visiting_test(words: &[u64; 206], idx: usize) -> (r: bool)
    requires
        idx < RACE_STATE_COUNT,
    ensures
        r == visited(words@, idx as int),
{
    (words[idx / 64] >> ((idx % 64) as u64)) & 1 == 1
}

#[inline]
pub fn visiting_set(words: &mut [u64; 206], idx: usize)
    requires
        idx < RACE_STATE_COUNT,
    ensures
        forall|i: int|
            0 <= i < RACE_STATE_COUNT ==> #[trigger] visited(final(words)@, i) == (i == idx
                || visited(old(words)@, i)),
{
    let k: usize = idx / 64;
    let one: u64 = 1u64 << ((idx % 64) as u64);
    words[k] = words[k] | one;
    proof {
        assert forall|i: int| 0 <= i < RACE_STATE_COUNT implies #[trigger] visited(words@, i) == (i
            == idx || visited(old(words)@, i)) by {
            lemma_bits64(old(words)@[k as int], one, i % 64);
            lemma_one64(idx as int % 64, i % 64);
            assert(i / 64 * 64 + i % 64 == i);
            assert(idx as int / 64 * 64 + idx as int % 64 == idx);
        }
    }
}

#[inline]
pub fn visiting_clear(words: &mut [u64; 206], idx: usize)
    requires
        idx < RACE_STATE_COUNT,
    ensures
        forall|i: int|
            0 <= i < RACE_STATE_COUNT ==> #[trigger] visited(final(words)@, i) == (i != idx
                && visited(old(words)@, i)),
{
    let k: usize = idx / 64;
    let one: u64 = 1u64 << ((idx % 64) as u64);
    words[k] = words[k] & !one;
    proof {
        assert forall|i: int| 0 <= i < RACE_STATE_COUNT implies #[trigger] visited(words@, i) == (i
            != idx && visited(old(words)@, i)) by {
            lemma_bits64(old(words)@[k as int], !one, i % 64);
            lemma_bits64(one, one, i % 64);
            lemma_one64(idx as int % 64, i % 64);
            assert(i / 64 * 64 + i % 64 == i);
            assert(idx as int / 64 * 64 + idx as int % 64 == idx);
        }
    }
}

/// What children say of their parent; each child speaks for the opponent.
pub open spec fn aggregate_spec(children: Seq<RaceProof>) -> RaceProof {
    if exists|i: int| 0 <= i < children.len() && children[i] == RaceProof::Loss {
        RaceProof::Win
    } else if forall|i: int| 0 <= i < children.len() ==> children[i] == RaceProof::Win {
        RaceProof::Loss
    } else {
        RaceProof::Unknown
    }
}

/// Three-valued minimax over child proofs: a lost child wins; without one, all
/// won lose; an unknown child leaves it open.
pub fn aggregate_opponent_child_proofs(children: &[RaceProof]) -> (r: RaceProof)
    ensures
        r == aggregate_spec(children@),
{
    let mut has_stm_win: bool = false;
    let mut all_opponent_win: bool = true;
    let mut i: usize = 0;
    while i < children.len()
        invariant
            i <= children@.len(),
            has_stm_win == exists|k: int| 0 <= k < i && children@[k] == RaceProof::Loss,
            (all_opponent_win && !has_stm_win) == forall|k: int|
                0 <= k < i ==> children@[k] == RaceProof::Win,
        decreases children@.len() - i,
    {
        let child: RaceProof = children[i];
        match child {
            RaceProof::Loss => {
                has_stm_win = true;
                assert(children@[i as int] == RaceProof::Loss);
            },
            RaceProof::Win => {},
            RaceProof::Unknown => {
                all_opponent_win = false;
                assert(children@[i as int] != RaceProof::Win);
            },
        }
        i = i + 1;
    }
    if has_stm_win {
        RaceProof::Win
    } else if all_opponent_win {
        RaceProof::Loss
    } else {
        RaceProof::Unknown
    }
}

/// A verdict is true of the state, as far as it says anything.
pub open spec fn sound(p: RaceProof, s: RaceState) -> bool {
    &&& p == RaceProof::Win ==> race_value(s)
    &&& p == RaceProof::Loss ==> !race_value(s)
}

struct RaceResolver {
    visiting: [u64; 206],
    memo: HashMap<u32, RaceProof>,
    depth: u32,
    depth_cap: u32,
}

impl RaceResolver {
    /// The walls are those of `s`; what is on the active path ranks above `s`,
    /// and every remembered verdict is true.
    spec fn fits(self, s: RaceState) -> bool {
        &&& forall|p0: int, p1: int, t: int|
            #![trigger state_index(p0, p1, t)]
            0 <= p0 < 81 && 0 <= p1 < 81 && 0 <= t < 2 && visited(
                self.visiting@,
                state_index(p0, p1, t),
            ) ==> (RaceState { p0, p1, turn: t, ..s }).rank() > s.rank()
        &&& self.memo_true(s)
    }

    spec fn memo_true(self, s: RaceState) -> bool {
        forall|p0: int, p1: int, t: int|
            #![trigger state_index(p0, p1, t)]
            0 <= p0 < 81 && 0 <= p1 < 81 && 0 <= t < 2 && self.memo@.contains_key(
                state_index(p0, p1, t) as u32,
            ) ==> {
                let x = self.memo@[state_index(p0, p1, t) as u32];
                x != RaceProof::Unknown && sound(x, (RaceState { p0, p1, turn: t, ..s }))
            }
    }

    fn new(depth_cap: u32) -> (r: Self)
        ensures
            r.depth == 0,
            r.depth_cap == depth_cap,
            forall|i: int| 0 <= i < RACE_STATE_COUNT ==> !(#[trigger] visited(r.visiting@, i)),
            r.memo@ == Map::<u32, RaceProof>::empty(),
    {
        let r: RaceResolver = RaceResolver {
            visiting: [0u64; 206],
            memo: HashMap::new(),
            depth: 0,
            depth_cap,
        };
        proof {
            assert forall|i: int| 0 <= i < RACE_STATE_COUNT implies !(#[trigger] visited(
                r.visiting@,
                i,
            )) by {
                lemma_bits64(0, 0, i % 64);
            }
        }
        r
    }
}

/// The states that are on the active path rank above a child, too.
proof fn lemma_child_fits(r: RaceResolver, after: RaceResolver, s: RaceState, cell: int, idx: int)
    requires
        s.wf(),
        0 <= cell < 81,
        s.closer(cell),
        r.fits(s),
        idx == state_index(s.p0, s.p1, s.turn),
        forall|i: int|
            0 <= i < RACE_STATE_COUNT ==> #[trigger] visited(after.visiting@, i) == (i == idx
                || visited(r.visiting@, i)),
        after.memo_true(s),
    ensures
        after.fits(s.child(cell)),
{
    let c = s.child(cell);
    lemma_child_rank(s, cell);
    assert forall|p0: int, p1: int, t: int|
        #![trigger state_index(p0, p1, t)]
        0 <= p0 < 81 && 0 <= p1 < 81 && 0 <= t < 2 && visited(
            after.visiting@,
            state_index(p0, p1, t),
        ) implies (RaceState { p0, p1, turn: t, ..c }).rank() > c.rank() by {
        let x = state_index(p0, p1, t);
        assert(0 <= x < RACE_STATE_COUNT);
        assert((RaceState { p0, p1, turn: t, ..c }) == (RaceState { p0, p1, turn: t, ..s }));
        if x == idx {
            lemma_state_index_injective(p0, p1, t, s.p0, s.p1, s.turn);
        } else {
            assert(visited(r.visiting@, x));
        }
    }
    assert forall|p0: int, p1: int, t: int|
        #![trigger state_index(p0, p1, t)]
        0 <= p0 < 81 && 0 <= p1 < 81 && 0 <= t < 2 && after.memo@.contains_key(
            state_index(p0, p1, t) as u32,
        ) implies ({
        let x = after.memo@[state_index(p0, p1, t) as u32];
        x != RaceProof::Unknown && sound(x, (RaceState { p0, p1, turn: t, ..c }))
    }) by {
        assert((RaceState { p0, p1, turn: t, ..c }) == (RaceState { p0, p1, turn: t, ..s }));
    }
}

/// Verdicts on the children that the first `n` moves lead closer to, with the
/// moves they belong to, none of which arrives; with `sure`, no verdict is
/// missing.
#[verifier::opaque]
spec fn tried(
    s: RaceState,
    children: Seq<RaceProof>,
    which: Seq<int>,
    n: int,
    sure: bool,
) -> bool {
    &&& children.len() == which.len()
    &&& forall|k: int|
        0 <= k < which.len() ==> 0 <= #[trigger] which[k] < n && s.closer(
            s.cells()[which[k]] as int,
        ) && sound(children[k], s.child(s.cells()[which[k]] as int)) && (sure ==> children[k]
            != RaceProof::Unknown)
    &&& forall|i: int|
        0 <= i < n && s.closer(#[trigger] s.cells()[i] as int) ==> !on_goal(
            s.turn,
            s.cells()[i] as int,
        ) && which.contains(i)
}

proof fn lemma_tried_none(s: RaceState, sure: bool)
    ensures
        tried(s, Seq::empty(), Seq::empty(), 0, sure),
{
    reveal(tried);
}

proof fn lemma_tried_skip(
    s: RaceState,
    children: Seq<RaceProof>,
    which: Seq<int>,
    n: int,
    sure: bool,
)
    requires
        tried(s, children, which, n, sure),
        !s.closer(s.cells()[n] as int),
    ensures
        tried(s, children, which, n + 1, sure),
{
    reveal(tried);
}

proof fn lemma_tried_more(
    s: RaceState,
    children: Seq<RaceProof>,
    which: Seq<int>,
    n: int,
    sure: bool,
    p: RaceProof,
)
    requires
        tried(s, children, which, n, sure),
        n >= 0,
        s.closer(s.cells()[n] as int),
        !on_goal(s.turn, s.cells()[n] as int),
        sound(p, s.child(s.cells()[n] as int)),
        sure ==> p != RaceProof::Unknown,
    ensures
        tried(s, children.push(p), which.push(n), n + 1, sure),
{
    reveal(tried);
    let more = which.push(n);
    let kids = children.push(p);
    assert(more[which.len() as int] == n);
    assert forall|k: int| 0 <= k < more.len() implies 0 <= #[trigger] more[k] < n + 1 && s.closer(
        s.cells()[more[k]] as int,
    ) && sound(kids[k], s.child(s.cells()[more[k]] as int)) && (sure ==> kids[k]
        != RaceProof::Unknown) by {
        if k < which.len() {
            assert(more[k] == which[k]);
            assert(kids[k] == children[k]);
        } else {
            assert(kids[k] == p);
        }
    }
    assert forall|i: int| 0 <= i < n + 1 && s.closer(#[trigger] s.cells()[i] as int) implies !on_goal(
        s.turn,
        s.cells()[i] as int,
    ) && more.contains(i) by {
        if i < n {
            let q = choose|q: int| 0 <= q < which.len() && which[q] == i;
            assert(more[q] == i);
        }
    }
}

/// Child verdicts that cover all moves closer, none of which arrives, decide
/// the parent.
proof fn lemma_aggregate_sound(
    s: RaceState,
    children: Seq<RaceProof>,
    which: Seq<int>,
    sure: bool,
)
    requires
        s.wf(),
        !on_goal(s.turn, s.pawn(s.turn)),
        tried(s, children, which, s.cells().len() as int, sure),
    ensures
        sound(aggregate_spec(children), s),
        sure ==> aggregate_spec(children) != RaceProof::Unknown,
{
    reveal(tried);
    assert(sure ==> forall|k: int|
        0 <= k < children.len() ==> #[trigger] children[k] != RaceProof::Unknown) by {
        if sure {
            assert forall|k: int| 0 <= k < children.len() implies #[trigger] children[k]
                != RaceProof::Unknown by {
                assert(0 <= which[k]);
            }
        }
    }
    lemma_race_step(s);
    if exists|k: int| 0 <= k < children.len() && children[k] == RaceProof::Loss {
        let k = choose|k: int| 0 <= k < children.len() && children[k] == RaceProof::Loss;
        let i = which[k];
        assert(s.closer(s.cells()[i] as int) && !race_value(s.child(s.cells()[i] as int)));
    } else if forall|k: int| 0 <= k < children.len() ==> children[k] == RaceProof::Win {
        assert forall|i: int|
            0 <= i < s.cells().len() && s.closer(#[trigger] s.cells()[i] as int) implies !on_goal(
            s.turn,
            s.cells()[i] as int,
        ) && race_value(s.child(s.cells()[i] as int)) by {
            let k = choose|k: int| 0 <= k < which.len() && which[k] == i;
            assert(children[k] == RaceProof::Win);
        }
    }
}

/// The verdict on one move closer, for the opponent.
fn race_child(g: &mut AceGame, resolver: &mut RaceResolver, m: i16) -> (r: RaceProof)
    requires
        old(g).wf(),
        0 <= m < 81,
        race_of(old(g)@).closer(m as int),
        old(g)@.hist.len() + race_of(old(g)@).rank() < i32::MAX,
        old(resolver).fits(race_of(old(g)@).child(m as int)),
        old(resolver).depth <= old(resolver).depth_cap,
    ensures
        final(g).wf(),
        final(g)@ == old(g)@,
        final(resolver).memo_true(race_of(old(g)@)),
        forall|i: int|
            0 <= i < RACE_STATE_COUNT ==> #[trigger] visited(final(resolver).visiting@, i)
                == visited(old(resolver).visiting@, i),
        final(resolver).depth == old(resolver).depth,
        final(resolver).depth_cap == old(resolver).depth_cap,
        sound(r, race_of(old(g)@).child(m as int)),
        old(resolver).depth + race_of(old(g)@).rank() <= old(resolver).depth_cap + 1 ==> r
            != RaceProof::Unknown,
    decreases race_of(old(g)@).rank(), 0nat,
{
    let ghost st = g@;
    let ghost s = race_of(g@);
    proof {
        lemma_child_rank(s, m as int);
        lemma_ace_unmake_restores(st, m);
        assert(race_of(st.after(m)) =~= s.child(m as int));
    }
    g.make_move(m);
    let p: RaceProof = race_rec(g, resolver);
    g.unmake_move();
    proof {
        lemma_memo_back(*resolver, s, m as int);
    }
    p
}

fn race_rec(g: &mut AceGame, resolver: &mut RaceResolver) -> (r: RaceProof)
    requires
        old(g).wf(),
        old(g)@.hist.len() + race_of(old(g)@).rank() < i32::MAX,
        old(resolver).fits(race_of(old(g)@)),
        old(resolver).depth <= old(resolver).depth_cap,
    ensures
        final(g).wf(),
        final(g)@ == old(g)@,
        final(resolver).fits(race_of(old(g)@)),
        forall|i: int|
            0 <= i < RACE_STATE_COUNT ==> #[trigger] visited(final(resolver).visiting@, i)
                == visited(old(resolver).visiting@, i),
        final(resolver).depth == old(resolver).depth,
        final(resolver).depth_cap == old(resolver).depth_cap,
        sound(r, race_of(old(g)@)),
        old(resolver).depth + race_of(old(g)@).rank() <= old(resolver).depth_cap ==> r
            != RaceProof::Unknown,
        old(resolver).depth == old(resolver).depth_cap && !on_goal(
            old(g)@.turn,
            old(g)@.pawn(old(g)@.turn),
        ) ==> r == RaceProof::Unknown,
    decreases race_of(old(g)@).rank(), 1nat,
{
    let ghost st = g@;
    let ghost s = race_of(g@);
    let stm: usize = g.turn;
    let pawn: usize = g.pawn[stm];
    proof {
        lemma_rank_nonneg(s);
        lemma_cells_on_board(s);
    }
    if (stm == 0 && pawn < 9) || (stm == 1 && pawn >= 72) {
        return RaceProof::Win;
    }
    let mut d_goal: [u8; 81] = [255u8; 81];
    g.compute_dist(stm, &mut d_goal);
    let my_dist: u8 = d_goal[pawn];
    assert(my_dist == s.goal_dist_from(s.turn, s.pawn(s.turn)));
    if resolver.depth >= resolver.depth_cap {
        proof {
            lemma_positive_rank(s, d_goal@);
        }
        return RaceProof::Unknown;
    }
    let idx: usize = race_state_index(g.pawn[0], g.pawn[1], g.turn);
    if visiting_test(&resolver.visiting, idx) {
        assert(visited(resolver.visiting@, state_index(s.p0, s.p1, s.turn)));
        assert((RaceState { p0: s.p0, p1: s.p1, turn: s.turn, ..s }) == s);
        return RaceProof::Unknown;
    }
    let key: u32 = idx as u32;
    match resolver.memo.get(&key) {
        Some(cached) => {
            proof {
                assert(state_index(s.p0, s.p1, s.turn) as u32 == key);
                assert((RaceState { p0: s.p0, p1: s.p1, turn: s.turn, ..s }) == s);
            }
            return *cached;
        },
        None => {},
    }
    let ghost r0 = *resolver;
    visiting_set(&mut resolver.visiting, idx);
    resolver.depth = resolver.depth + 1;
    let mut buf: [i16; 16] = [0i16; 16];
    assert(st.pawn_cells() == s.cells());
    let cnt: usize = g.gen_pawn_moves(&mut buf, 0);
    let mut children: Vec<RaceProof> = Vec::new();
    let ghost mut which: Seq<int> = Seq::empty();
    let ghost sure = r0.depth + s.rank() <= r0.depth_cap;
    proof {
        lemma_tried_none(s, sure);
        assert(children@ =~= Seq::empty());
    }
    let mut i: usize = 0;
    while i < cnt
        invariant
            i <= cnt <= 5,
            cnt == s.cells().len(),
            forall|k: int| 0 <= k < cnt ==> #[trigger] buf[k] == s.cells()[k],
            forall|k: int| 0 <= k < cnt ==> 0 <= #[trigger] s.cells()[k] < 81,
            g.wf(),
            g@ == st,
            s == race_of(st),
            s.wf(),
            stm == st.turn,
            pawn == st.pawn(st.turn),
            !on_goal(s.turn, s.pawn(s.turn)),
            is_field(d_goal@, wall_steps(s.h, s.v), goal_squares(grid_player(s.turn))),
            my_dist == s.goal_dist_from(s.turn, s.pawn(s.turn)),
            st.hist.len() + s.rank() < i32::MAX,
            idx == state_index(s.p0, s.p1, s.turn),
            idx < RACE_STATE_COUNT,
            r0.fits(s),
            !visited(r0.visiting@, idx as int),
            r0.depth < r0.depth_cap,
            resolver.depth == r0.depth + 1,
            resolver.depth_cap == r0.depth_cap,
            resolver.memo_true(s),
            forall|k: int|
                0 <= k < RACE_STATE_COUNT ==> #[trigger] visited(resolver.visiting@, k) == (k == idx
                    || visited(r0.visiting@, k)),
            tried(s, children@, which, i as int, sure),
            sure == (r0.depth + s.rank() <= r0.depth_cap),
            r0 == *old(resolver),
            st == old(g)@,
        decreases cnt - i,
    {
        let m: i16 = buf[i];
        assert(m == s.cells()[i as int]);
        let to: usize = m as usize;
        assert(d_goal@[to as int] == s.goal_dist_from(s.turn, to as int));
        if d_goal[to] < my_dist {
            assert(s.closer(to as int));
            if (stm == 0 && to < 9) || (stm == 1 && to >= 72) {
                visiting_clear(&mut resolver.visiting, idx);
                resolver.depth = resolver.depth - 1;
                proof {
                    lemma_race_step(s);
                    assert(s.closer(s.cells()[i as int] as int));
                    lemma_restored(r0, *resolver, s);
                }
                return RaceProof::Win;
            }
            proof {
                lemma_child_fits(r0, *resolver, s, to as int, idx as int);
            }
            let p: RaceProof = race_child(g, resolver, m);
            proof {
                lemma_tried_more(s, children@, which, i as int, sure, p);
                which = which.push(i as int);
            }
            children.push(p);
        } else {
            proof {
                lemma_tried_skip(s, children@, which, i as int, sure);
            }
        }
        i = i + 1;
    }
    resolver.depth = resolver.depth - 1;
    visiting_clear(&mut resolver.visiting, idx);
    let result: RaceProof = aggregate_opponent_child_proofs(&children);
    proof {
        lemma_aggregate_sound(s, children@, which, sure);
        lemma_restored(r0, *resolver, s);
    }
    match result {
        RaceProof::Unknown => {},
        _ => {
            let ghost before = *resolver;
            resolver.memo.insert(key, result);
            proof {
                assert forall|p0: int, p1: int, t: int|
                    #![trigger state_index(p0, p1, t)]
                    0 <= p0 < 81 && 0 <= p1 < 81 && 0 <= t < 2 && resolver.memo@.contains_key(
                        state_index(p0, p1, t) as u32,
                    ) implies ({
                    let x = resolver.memo@[state_index(p0, p1, t) as u32];
                    x != RaceProof::Unknown && sound(x, (RaceState { p0, p1, turn: t, ..s }))
                }) by {
                    let k = state_index(p0, p1, t);
                    assert(0 <= k < RACE_STATE_COUNT);
                    if k == idx {
                        lemma_state_index_injective(p0, p1, t, s.p0, s.p1, s.turn);
                        assert((RaceState { p0, p1, turn: t, ..s }) == s);
                    } else {
                        assert(before.memo@.contains_key(k as u32));
                    }
                }
            }
        },
    }
    result
}

/// A pawn that has not arrived has a way to go.
proof fn lemma_positive_rank(s: RaceState, field: Seq<u8>)
    requires
        s.wf(),
        !on_goal(s.turn, s.pawn(s.turn)),
        is_field(field, wall_steps(s.h, s.v), goal_squares(grid_player(s.turn))),
    ensures
        s.rank() > 0,
{
    lemma_rank_nonneg(s);
    let st = wall_steps(s.h, s.v);
    let g = goal_squares(grid_player(s.turn));
    let c = s.pawn(s.turn);
    if s.goal_dist_from(s.turn, c) == 0 {
        assert(field[c] == dist(st, g, c));
        crate::path::graph::lemma_dist_reach(st, g, c);
        assert(crate::path::graph::within(st, g, c, 0));
        assert(g(c));
    }
}

/// Taking a state off the active path restores what fits.
proof fn lemma_restored(r0: RaceResolver, r: RaceResolver, s: RaceState)
    requires
        r0.fits(s),
        forall|k: int|
            0 <= k < RACE_STATE_COUNT ==> #[trigger] visited(r.visiting@, k) == visited(
                r0.visiting@,
                k,
            ),
        r.memo_true(s),
    ensures
        r.fits(s),
{
    assert forall|p0: int, p1: int, t: int|
        #![trigger state_index(p0, p1, t)]
        0 <= p0 < 81 && 0 <= p1 < 81 && 0 <= t < 2 && visited(
            r.visiting@,
            state_index(p0, p1, t),
        ) implies (RaceState { p0, p1, turn: t, ..s }).rank() > s.rank() by {
        assert(0 <= state_index(p0, p1, t) < RACE_STATE_COUNT);
    }
}

/// What is remembered true of a child's walls is true of the parent's.
proof fn lemma_memo_back(r: RaceResolver, s: RaceState, cell: int)
    requires
        r.memo_true(s.child(cell)),
    ensures
        r.memo_true(s),
{
    let c = s.child(cell);
    assert forall|p0: int, p1: int, t: int|
        #![trigger state_index(p0, p1, t)]
        0 <= p0 < 81 && 0 <= p1 < 81 && 0 <= t < 2 && r.memo@.contains_key(
            state_index(p0, p1, t) as u32,
        ) implies ({
        let x = r.memo@[state_index(p0, p1, t) as u32];
        x != RaceProof::Unknown && sound(x, (RaceState { p0, p1, turn: t, ..s }))
    }) by {
        assert((RaceState { p0, p1, turn: t, ..c }) == (RaceState { p0, p1, turn: t, ..s }));
    }
}

/// Solves the race of the position for the side to move, up to a ply cap. A
/// verdict is the value of the restricted race; no verdict comes only when the
/// cap is below the sum of the distances.
pub fn race_minimax_with_cap(g: &mut AceGame, depth_cap: u32) -> (r: RaceProof)
    requires
        old(g).wf(),
        old(g)@.hist.len() < i32::MAX - 1000,
    ensures
        final(g).wf(),
        final(g)@ == old(g)@,
        sound(r, race_of(old(g)@)),
        depth_cap >= race_of(old(g)@).rank() ==> r != RaceProof::Unknown,
        depth_cap == 0 && !on_goal(old(g)@.turn, old(g)@.pawn(old(g)@.turn)) ==> r
            == RaceProof::Unknown,
{
    let mut resolver: RaceResolver = RaceResolver::new(depth_cap);
    proof {
        lemma_fresh_fits(resolver, race_of(g@));
    }
    let mut d: [u8; 81] = [255u8; 81];
    g.compute_dist(0, &mut d);
    let a: u8 = d[g.pawn[0]];
    g.compute_dist(1, &mut d);
    let b: u8 = d[g.pawn[1]];
    assert(race_of(g@).rank() == a + b);
    race_rec(g, &mut resolver)
}

proof fn lemma_fresh_fits(r: RaceResolver, s: RaceState)
    requires
        forall|i: int| 0 <= i < RACE_STATE_COUNT ==> !(#[trigger] visited(r.visiting@, i)),
        r.memo@ == Map::<u32, RaceProof>::empty(),
    ensures
        r.fits(s),
{
    assert forall|p0: int, p1: int, t: int|
        #![trigger state_index(p0, p1, t)]
        0 <= p0 < 81 && 0 <= p1 < 81 && 0 <= t < 2 implies !visited(
        r.visiting@,
        state_index(p0, p1, t),
    ) by {
        assert(0 <= state_index(p0, p1, t) < RACE_STATE_COUNT);
    }
}

/// Solves the race of the position for the side to move.
pub fn race_minimax(g: &mut AceGame) -> (r: RaceProof)
    requires
        old(g).wf(),
        old(g)@.hist.len() < i32::MAX - 1000,
    ensures
        final(g).wf(),
        final(g)@ == old(g)@,
        sound(r, race_of(old(g)@)),
        RACE_RESOLVER_DEPTH_CAP >= race_of(old(g)@).rank() ==> r != RaceProof::Unknown,
{
    race_minimax_with_cap(g, RACE_RESOLVER_DEPTH_CAP)
}

/// Whether the side to move wins the race; `None` without a certificate.
pub fn race_minimax_stm_wins(g: &mut AceGame) -> (r: Option<bool>)
    requires
        old(g).wf(),
        old(g)@.hist.len() < i32::MAX - 1000,
    ensures
        final(g).wf(),
        final(g)@ == old(g)@,
        r matches Some(w) ==> w == race_value(race_of(old(g)@)),
        RACE_RESOLVER_DEPTH_CAP >= race_of(old(g)@).rank() ==> r is Some,
{
    match race_minimax(g) {
        RaceProof::Win => Some(true),
        RaceProof::Loss => Some(false),
        RaceProof::Unknown => None,
    }
}

// --- classifier ---

/// Outcome of the race classifier.
#[derive(Debug, Clone, Copy, PartialEq, Eq, Structural)]
pub enum RaceVerdict {
    /// The side to move wins.
    Win,
    /// The side to move loses.
    Loss,
    /// A jump can change the result: the race has to be solved.
    NeedsProof,
}

/// Cell `c` lies on a shortest way of player `p`.
pub open spec fn on_shortest_path(s: AceState, p: int, c: int) -> bool {
    let st = wall_steps(s.h, s.v);
    let g = goal_squares(grid_player(p));
    let from = dist(st, only(s.pawn(p)), c);
    let to = dist(st, g, c);
    from != 255 && to != 255 && from + to == dist(st, g, s.pawn(p))
}

/// Some cell lies on shortest ways of both players.
pub open spec fn paths_overlap_spec(s: AceState) -> bool {
    exists|c: int|
        0 <= c < 81 && #[trigger] on_shortest_path(s, 0, c) && on_shortest_path(s, 1, c)
}

/// Tempo advantage of player 0: the difference of the distances, one more on
/// its own turn and one less on the other's; 0 if a player has no way.
pub open spec fn tempo_spec(s: AceState) -> int {
    let a = s.goal_dist(0);
    let b = s.goal_dist(1);
    if a == 255 || b == 255 {
        0
    } else if s.turn == 0 {
        b - a + 1
    } else {
        b - a - 1
    }
}

/// Who wins a race of separate ways: the side to move if it is no farther.
pub open spec fn pure_race_spec(s: AceState) -> RaceVerdict {
    let a = s.goal_dist(0);
    let b = s.goal_dist(1);
    if a == 255 || b == 255 {
        RaceVerdict::NeedsProof
    } else if (s.turn == 0 && a <= b) || (s.turn != 0 && b <= a) {
        RaceVerdict::Win
    } else {
        RaceVerdict::Loss
    }
}

/// The classification: a tempo lead of two decides; without one, overlapping
/// ways need a proof and separate ways are a pure race.
pub open spec fn classify_spec(s: AceState) -> RaceVerdict {
    let adj = tempo_spec(s);
    if adj >= 2 {
        if s.turn == 0 {
            RaceVerdict::Win
        } else {
            RaceVerdict::Loss
        }
    } else if adj <= -2 {
        if s.turn == 0 {
            RaceVerdict::Loss
        } else {
            RaceVerdict::Win
        }
    } else if s.goal_dist(0) == 255 || s.goal_dist(1) == 255 || paths_overlap_spec(s) {
        RaceVerdict::NeedsProof
    } else {
        pure_race_spec(s)
    }
}

/// Distances of both players, 255 where there is no way.
pub fn wall_graph_distances(g: &AceGame) -> (r: (u8, u8))
    requires
        g@.wf(),
    ensures
        r.0 == g@.goal_dist(0),
        r.1 == g@.goal_dist(1),
        r.0 <= 80 || r.0 == 255,
        r.1 <= 80 || r.1 == 255,
{
    let mut d0: [u8; 81] = [0u8; 81];
    let mut d1: [u8; 81] = [0u8; 81];
    g.compute_dist(0, &mut d0);
    g.compute_dist(1, &mut d1);
    (d0[g.pawn[0]], d1[g.pawn[1]])
}

/// Whether the players' sets of shortest ways share a cell.
pub fn paths_overlap(g: &AceGame, d_goal0: &[u8; 81], d_goal1: &[u8; 81]) -> (r: bool)
    requires
        g@.wf(),
        is_field(d_goal0@, wall_steps(g@.h, g@.v), goal_squares(grid_player(0))),
        is_field(d_goal1@, wall_steps(g@.h, g@.v), goal_squares(grid_player(1))),
    ensures
        r == paths_overlap_spec(g@),
{
    let mut s0: [u8; 81] = [255u8; 81];
    let mut s1: [u8; 81] = [255u8; 81];
    g.dist_from(g.pawn[0], &mut s0);
    g.dist_from(g.pawn[1], &mut s1);
    let big0: u16 = d_goal0[g.pawn[0]] as u16;
    let big1: u16 = d_goal1[g.pawn[1]] as u16;
    let mut c: usize = 0;
    while c < 81
        invariant
            c <= 81,
            g@.wf(),
            is_field(d_goal0@, wall_steps(g@.h, g@.v), goal_squares(grid_player(0))),
            is_field(d_goal1@, wall_steps(g@.h, g@.v), goal_squares(grid_player(1))),
            is_field(s0@, wall_steps(g@.h, g@.v), only(g@.p0)),
            is_field(s1@, wall_steps(g@.h, g@.v), only(g@.p1)),
            big0 == d_goal0@[g@.p0],
            big1 == d_goal1@[g@.p1],
            forall|k: int|
                0 <= k < c ==> !(#[trigger] on_shortest_path(g@, 0, k) && on_shortest_path(
                    g@,
                    1,
                    k,
                )),
        decreases 81 - c,
    {
        let on0: bool = s0[c] != 255 && d_goal0[c] != 255 && s0[c] as u16 + d_goal0[c] as u16
            == big0;
        let on1: bool = s1[c] != 255 && d_goal1[c] != 255 && s1[c] as u16 + d_goal1[c] as u16
            == big1;
        assert(on0 == on_shortest_path(g@, 0, c as int)) by {
            assert(s0@[c as int] == s0[c as int] && d_goal0@[c as int] == d_goal0[c as int]);
        }
        assert(on1 == on_shortest_path(g@, 1, c as int)) by {
            assert(s1@[c as int] == s1[c as int] && d_goal1@[c as int] == d_goal1[c as int]);
        }
        if on0 && on1 {
            return true;
        }
        c = c + 1;
    }
    false
}

/// Tempo advantage of player 0, adjusted for the turn.
pub fn turn_adjusted_tempo_advantage(g: &AceGame) -> (r: i32)
    requires
        g@.wf(),
    ensures
        r == tempo_spec(g@),
{
    let (white_dist, black_dist) = wall_graph_distances(g);
    if white_dist == 255 || black_dist == 255 {
        return 0;
    }
    let raw: i32 = black_dist as i32 - white_dist as i32;
    if g.turn == 0 {
        raw + 1
    } else {
        raw - 1
    }
}

/// A race of separate ways; equal distances are won by the side to move.
pub fn separated_pure_race_verdict(g: &AceGame) -> (r: RaceVerdict)
    requires
        g@.wf(),
    ensures
        r == pure_race_spec(g@),
{
    let (white_dist, black_dist) = wall_graph_distances(g);
    if white_dist == 255 || black_dist == 255 {
        return RaceVerdict::NeedsProof;
    }
    let stm_wins: bool = if g.turn == 0 {
        white_dist <= black_dist
    } else {
        black_dist <= white_dist
    };
    if stm_wins {
        RaceVerdict::Win
    } else {
        RaceVerdict::Loss
    }
}

/// Classifies a race without walls by tempo and overlap of the ways.
pub fn hands_empty_race(g: &AceGame) -> (r: RaceVerdict)
    requires
        g@.wf(),
    ensures
        r == classify_spec(g@),
{
    let adj: i32 = turn_adjusted_tempo_advantage(g);
    if adj >= 2 {
        return if g.turn == 0 {
            RaceVerdict::Win
        } else {
            RaceVerdict::Loss
        };
    }
    if adj <= -2 {
        return if g.turn == 0 {
            RaceVerdict::Loss
        } else {
            RaceVerdict::Win
        };
    }
    let mut d0: [u8; 81] = [0u8; 81];
    let mut d1: [u8; 81] = [0u8; 81];
    g.compute_dist(0, &mut d0);
    g.compute_dist(1, &mut d1);
    if d0[g.pawn[0]] == 255 || d1[g.pawn[1]] == 255 {
        return RaceVerdict::NeedsProof;
    }
    if paths_overlap(g, &d0, &d1) {
        return RaceVerdict::NeedsProof;
    }
    separated_pure_race_verdict(g)
}

/// The same classification, under the name that says it is a proposal.
pub fn proposed_hands_empty_race(g: &AceGame) -> (r: RaceVerdict)
    requires
        g@.wf(),
    ensures
        r == classify_spec(g@),
{
    hands_empty_race(g)
}

/// Whether the classification, and the solver where that needs a proof, gives
/// the side to move the race.
pub open spec fn race_settled(s: AceState, stm_wins: bool) -> bool {
    match classify_spec(s) {
        RaceVerdict::Win => stm_wins,
        RaceVerdict::Loss => !stm_wins,
        RaceVerdict::NeedsProof => stm_wins == race_value(race_of(s)),
    }
}

/// Classifier, then solver: whether the side to move wins, `None` where
/// neither can say.
pub fn hands_empty_race_stm_wins(g: &mut AceGame) -> (r: Option<bool>)
    requires
        old(g).wf(),
        old(g)@.hist.len() < i32::MAX - 1000,
    ensures
        final(g).wf(),
        final(g)@ == old(g)@,
        r matches Some(w) ==> race_settled(old(g)@, w),
        classify_spec(old(g)@) != RaceVerdict::NeedsProof || RACE_RESOLVER_DEPTH_CAP >= race_of(
            old(g)@,
        ).rank() ==> r is Some,
{
    match hands_empty_race(g) {
        RaceVerdict::Win => Some(true),
        RaceVerdict::Loss => Some(false),
        RaceVerdict::NeedsProof => race_minimax_stm_wins(g),
    }
}

/// Verdict of an exact value: positive wins, negative loses.
pub fn exact_race_verdict(g: &AceGame, oracle_table: &[i16]) -> (r: RaceVerdict)
    requires
        g@.wf(),
        oracle_table@.len() >= RACE_STATE_COUNT,
    ensures
        ({
            let x = oracle_table@[state_index(g@.p0, g@.p1, g@.turn)];
            r == (if x > 0 {
                RaceVerdict::Win
            } else if x < 0 {
                RaceVerdict::Loss
            } else {
                RaceVerdict::NeedsProof
            })
        }),
{
    let id: usize = race_state_index(g.pawn[0], g.pawn[1], g.turn);
    let x: i16 = oracle_table[id];
    if x > 0 {
        RaceVerdict::Win
    } else if x < 0 {
        RaceVerdict::Loss
    } else {
        RaceVerdict::NeedsProof
    }
}

/// The classifier by the lead alone, where both players have a way: a mover with
/// the shorter way wins; one with a way longer by more than two steps loses;
/// between these, ways that share a cell are left to a proof, and separate ways
/// go to the mover exactly if the distances are equal. No race is ever given to a
/// mover who has the longer way.
pub proof fn lemma_classifier_goes_by_the_lead(s: AceState)
    requires
        s.wf(),
        s.goal_dist(0) != 255,
        s.goal_dist(1) != 255,
    ensures
        ({
            let mine = s.goal_dist(s.turn);
            let theirs = s.goal_dist(1 - s.turn);
            let shared = exists|c: int|
                0 <= c < 81 && #[trigger] on_shortest_path(s, s.turn, c) && on_shortest_path(
                    s,
                    1 - s.turn,
                    c,
                );
            &&& mine < theirs ==> classify_spec(s) == RaceVerdict::Win
            &&& mine > theirs + 2 ==> classify_spec(s) == RaceVerdict::Loss
            &&& theirs <= mine <= theirs + 2 ==> {
                &&& shared ==> classify_spec(s) == RaceVerdict::NeedsProof
                &&& !shared ==> classify_spec(s) == if mine == theirs {
                    RaceVerdict::Win
                } else {
                    RaceVerdict::Loss
                }
            }
            &&& classify_spec(s) == RaceVerdict::Win ==> pure_race_spec(s) == RaceVerdict::Win
            &&& classify_spec(s) == RaceVerdict::Loss ==> pure_race_spec(s) == RaceVerdict::Loss
        }),
{
    if s.turn == 1 {
        if paths_overlap_spec(s) {
            let c = choose|c: int|
                0 <= c < 81 && #[trigger] on_shortest_path(s, 0, c) && on_shortest_path(s, 1, c);
            assert(on_shortest_path(s, s.turn, c) && on_shortest_path(s, 1 - s.turn, c));
        }
    }
    if exists|c: int|
        0 <= c < 81 && #[trigger] on_shortest_path(s, s.turn, c) && on_shortest_path(
            s,
            1 - s.turn,
            c,
        ) {
        let c = choose|c: int|
            0 <= c < 81 && #[trigger] on_shortest_path(s, s.turn, c) && on_shortest_path(
                s,
                1 - s.turn,
                c,
            );
        assert(on_shortest_path(s, 0, c) && on_shortest_path(s, 1, c));
    }
}

/// A player without a way leaves everything to a proof, and the lead counts for
/// nothing. Elsewhere the turn is worth two steps of lead, and a step of either
/// player one.
pub proof fn lemma_lead_in_steps(s: AceState, t: AceState)
    requires
        s.wf(),
        t.wf(),
    ensures
        s.goal_dist(0) == 255 || s.goal_dist(1) == 255 ==> tempo_spec(s) == 0 && classify_spec(s)
            == RaceVerdict::NeedsProof,
        s.goal_dist(0) != 255 && s.goal_dist(1) != 255 && t.goal_dist(0) != 255 && t.goal_dist(1)
            != 255 ==> tempo_spec(s) - tempo_spec(t) == (t.goal_dist(0) - s.goal_dist(0)) + (
        s.goal_dist(1) - t.goal_dist(1)) + 2 * (t.turn - s.turn),
{
}

} // verus!
