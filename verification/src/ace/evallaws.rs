//! What the value of a position says.

use vstd::prelude::*;

use crate::ace::certify::can_force;
use crate::ace::certmemo::{keyed_win, memo_key, race_taken, CertMemo};
use crate::ace::eval::{
    by_knowledge, count_of, describes, eval_ok, net_by_memo, EvalMode, NetInput, RACE_MATE,
};
use crate::ace::game::{grid_player, AceState};
use crate::ace::openrace::open_race;
use crate::ace::race::{race_of, state_index};
use crate::ace::racecache::RaceCache;
use crate::ace::racelaws::{
    lemma_open_race_taken_is_forced, lemma_other_cannot_force, lemma_table_value_is_forced, surely,
};
use crate::ace::racetable::is_race_table;
use crate::path::distance::is_field;
use crate::path::graph::{goal_squares, lemma_dist_bound, reach, wall_steps};
use crate::util::bits::bit64;
use crate::util::clock::Deadline;

verus! {

/// Distances are at most 81, or 255 without a way.
pub proof fn lemma_goal_dist_range(s: AceState, p: int)
    requires
        s.wf(),
        0 <= p < 2,
    ensures
        0 <= s.goal_dist(p) <= 81 || s.goal_dist(p) == 255,
{
    let st = wall_steps(s.h, s.v);
    let g = goal_squares(grid_player(p));
    if reach(st, g, s.pawn(p)) {
        lemma_dist_bound(st, g, s.pawn(p));
    }
}

/// Both hands are empty.
pub open spec fn no_walls_in_hand(s: AceState) -> bool {
    s.wl0 == 0 && s.wl1 == 0
}

/// A race that no table decides is valued for the side that leads it: for the
/// side to move exactly if its way is no longer than the opponent's, and by at
/// least 2745 either way. Table verdicts lie beyond 17,000.
pub proof fn lemma_race_value_favours_the_leader<N: Fn(NetInput) -> i32>(
    net: N,
    mode: EvalMode,
    s: AceState,
    depth: int,
    r: int,
)
    requires
        eval_ok(net, mode, s, depth, r),
        no_walls_in_hand(s),
        depth <= 0 || !mode.cert_eval_leaves_only,
        !mode.cheap_cert,
        s.wf(),
        !mode.race_proof || -17_000 < r < 17_000,
    ensures
        s.goal_dist(s.turn) <= s.goal_dist(1 - s.turn) <==> r > 0,
        s.goal_dist(s.turn) > s.goal_dist(1 - s.turn) <==> r < 0,
        r >= 2745 || r <= -2745,
        -17_000 < r < 17_000,
{
    lemma_goal_dist_range(s, s.turn);
    lemma_goal_dist_range(s, 1 - s.turn);
}

/// Of two such races the one is valued higher in which the mover is nearer and
/// the opponent no nearer, or the opponent farther and the mover no farther.
pub proof fn lemma_race_value_follows_the_distances<N: Fn(NetInput) -> i32>(
    net: N,
    mode: EvalMode,
    s: AceState,
    r: int,
    t: AceState,
    q: int,
    depth: int,
)
    requires
        eval_ok(net, mode, s, depth, r),
        eval_ok(net, mode, t, depth, q),
        no_walls_in_hand(s),
        depth <= 0 || !mode.cert_eval_leaves_only,
        no_walls_in_hand(t),
        !mode.cheap_cert,
        s.wf(),
        t.wf(),
        !mode.race_proof || (-17_000 < r < 17_000 && -17_000 < q < 17_000),
        s.goal_dist(s.turn) <= t.goal_dist(t.turn),
        t.goal_dist(1 - t.turn) <= s.goal_dist(1 - s.turn),
    ensures
        r >= q,
        (s.goal_dist(s.turn), s.goal_dist(1 - s.turn)) != (
            t.goal_dist(t.turn),
            t.goal_dist(1 - t.turn),
        ) ==> r > q,
{
    lemma_goal_dist_range(s, s.turn);
    lemma_goal_dist_range(s, 1 - s.turn);
    lemma_goal_dist_range(t, t.turn);
    lemma_goal_dist_range(t, 1 - t.turn);
}

/// Where no table is to be had, the leader of the race is favoured.
pub proof fn lemma_race_without_table<N: Fn(NetInput) -> i32>(
    net: N,
    mode: EvalMode,
    race: RaceCache,
    certs: CertMemo,
    deadline: Deadline,
    s: AceState,
    depth: int,
    r: int,
)
    requires
        by_knowledge(net, mode, race, certs, deadline, s, depth, r),
        no_walls_in_hand(s),
        depth <= 0 || !mode.cert_eval_leaves_only,
        !mode.cheap_cert,
        mode.race_proof,
        race.refuses(s, deadline),
        s.wf(),
    ensures
        s.goal_dist(s.turn) <= s.goal_dist(1 - s.turn) <==> r > 0,
        s.goal_dist(s.turn) > s.goal_dist(1 - s.turn) <==> r < 0,
        r >= 2745 || r <= -2745,
        -17_000 < r < 17_000,
{
    lemma_goal_dist_range(s, s.turn);
    lemma_goal_dist_range(s, 1 - s.turn);
}

/// With the exact table of the walls at hand, a race with a winner is valued for
/// the side that can force the win.
pub proof fn lemma_race_by_exact_table<N: Fn(NetInput) -> i32>(
    net: N,
    mode: EvalMode,
    race: RaceCache,
    certs: CertMemo,
    deadline: Deadline,
    s: AceState,
    depth: int,
    r: int,
)
    requires
        by_knowledge(net, mode, race, certs, deadline, s, depth, r),
        no_walls_in_hand(s),
        depth <= 0 || !mode.cert_eval_leaves_only,
        !mode.cheap_cert,
        mode.race_proof,
        s.wf(),
        s.winner_spec() == -1,
        race.at_hand(s),
        forall|k: int| #[trigger]
            race.serves(k, s) ==> is_race_table(race.tables[k]->0@, s.h, s.v)
                && race.tables[k]->0@[state_index(s.p0, s.p1, s.turn)] != 0,
    ensures
        r > 0 <==> can_force(s, s.turn),
        r < 0 <==> can_force(s, 1 - s.turn),
        r > 17_000 || r < -17_000,
{
    let k = choose|k: int| #[trigger]
        race.serves(k, s) && r == crate::ace::eval::table_score(
            race.tables[k]->0@[state_index(s.p0, s.p1, s.turn)] as int,
            s.goal_dist(s.turn),
            s.goal_dist(1 - s.turn),
        );
    let t = race.tables[k]->0@;
    let x = t[state_index(s.p0, s.p1, s.turn)] as int;
    lemma_table_value_is_forced(t, s);
    if x > 0 {
        assert(crate::ace::certify::forced(s, s.turn, x as nat));
        lemma_other_cannot_force(s, s.turn);
    } else {
        assert(crate::ace::certify::forced(s, 1 - s.turn, (-x) as nat));
        lemma_other_cannot_force(s, 1 - s.turn);
    }
}

/// By classifier and solver a race is valued for the side that is taken to win,
/// near the value of a won race; the nearer the winner, the farther from nothing.
pub proof fn lemma_cheap_race_value<N: Fn(NetInput) -> i32>(
    net: N,
    mode: EvalMode,
    s: AceState,
    depth: int,
    r: int,
)
    requires
        eval_ok(net, mode, s, depth, r),
        no_walls_in_hand(s),
        depth <= 0 || !mode.cert_eval_leaves_only,
        mode.cheap_cert,
        s.wf(),
    ensures
        r > 0 ==> race_taken(s, true),
        r < 0 ==> race_taken(s, false),
        surely(s, true) ==> r > 0,
        surely(s, false) ==> r < 0,
        RACE_MATE - 255 <= r < RACE_MATE || -RACE_MATE < r <= -(RACE_MATE - 255),
        r > 0 && s.goal_dist(s.turn) >= 1 ==> r + s.goal_dist(s.turn) == 50_000,
        r < 0 && s.goal_dist(1 - s.turn) >= 1 ==> r - s.goal_dist(1 - s.turn) == -50_000,
{
    lemma_goal_dist_range(s, s.turn);
    lemma_goal_dist_range(s, 1 - s.turn);
}

/// On a board without walls that is the side that can force the win.
pub proof fn lemma_cheap_open_race_value<N: Fn(NetInput) -> i32>(
    net: N,
    mode: EvalMode,
    s: AceState,
    depth: int,
    r: int,
)
    requires
        eval_ok(net, mode, s, depth, r),
        no_walls_in_hand(s),
        depth <= 0 || !mode.cert_eval_leaves_only,
        mode.cheap_cert,
        s.wf(),
        open_race(race_of(s)),
    ensures
        r > 0 <==> can_force(s, s.turn),
        r < 0 <==> can_force(s, 1 - s.turn),
{
    lemma_cheap_race_value(net, mode, s, depth, r);
    if r > 0 {
        lemma_open_race_taken_is_forced(s, true);
    } else {
        lemma_open_race_taken_is_forced(s, false);
    }
}

/// Otherwise the net is asked about the position, and a certificate only raises
/// what it says: to 2500, where the net saw the position within 700 of even.
pub proof fn lemma_certificate_only_raises<N: Fn(NetInput) -> i32>(
    net: N,
    mode: EvalMode,
    race: RaceCache,
    certs: CertMemo,
    deadline: Deadline,
    s: AceState,
    depth: int,
    r: int,
)
    requires
        by_knowledge(net, mode, race, certs, deadline, s, depth, r),
        s.wl0 > 0 || s.wl1 > 0,
        s.wl0 >= 0 && s.wl1 >= 0,
    ensures
        exists|x: NetInput, y: i32|
            describes(x, s) && #[trigger] call_ensures(net, (x,), y) && r >= y && (r > y ==> r
                == 2500 && -700 < y < 700 && mode.race_proof) && (r > y ==> keyed_win(
                memo_key(s, s.turn),
            ) || certs.cache@.contains_key(memo_key(s, s.turn))),
{
    let k = memo_key(s, s.turn);
    assert(net_by_memo(net, mode, certs, s, depth, r));
}

/// What the net gets to see, square by square: each player's distances are those
/// to its own goal row, its steps start at its own pawn, a wall shows exactly
/// where one stands.
pub proof fn lemma_net_sees_the_position(x: NetInput, s: AceState)
    requires
        describes(x, s),
        s.wf(),
    ensures
        x.pawn[0] == s.p0 && x.pawn[1] == s.p1 && x.turn == s.turn,
        x.wl[0] == s.wl0 && x.wl[1] == s.wl1,
        x.goal0[s.p0] == s.goal_dist(0),
        x.goal1[s.p1] == s.goal_dist(1),
        forall|c: int| 0 <= c < 9 ==> #[trigger] x.goal0[c] == 0,
        forall|c: int| 72 <= c < 81 ==> #[trigger] x.goal1[c] == 0,
        x.steps0[s.p0] == 0,
        x.steps1[s.p1] == 0,
        forall|i: int| 0 <= i < 64 ==> (#[trigger] x.hw[i] == 1) == bit64(s.h, i),
        forall|i: int| 0 <= i < 64 ==> (#[trigger] x.vw[i] == 1) == bit64(s.v, i),
{
    let st = wall_steps(s.h, s.v);
    assert forall|c: int| 0 <= c < 9 implies #[trigger] x.goal0[c] == 0 by {
        lemma_source_is_near(st, goal_squares(grid_player(0)), c);
        assert(x.goal0@[c] == crate::path::graph::dist(st, goal_squares(grid_player(0)), c));
    }
    assert forall|c: int| 72 <= c < 81 implies #[trigger] x.goal1[c] == 0 by {
        lemma_source_is_near(st, goal_squares(grid_player(1)), c);
        assert(x.goal1@[c] == crate::path::graph::dist(st, goal_squares(grid_player(1)), c));
    }
    lemma_source_is_near(st, crate::path::graph::only(s.p0), s.p0);
    lemma_source_is_near(st, crate::path::graph::only(s.p1), s.p1);
    assert(x.steps0@[s.p0] == 0 && x.steps1@[s.p1] == 0);
    assert(x.goal0@[s.p0] == s.goal_dist(0) && x.goal1@[s.p1] == s.goal_dist(1));
}

/// A square that is one of the sources is no step away.
proof fn lemma_source_is_near(
    st: crate::path::graph::StepRel,
    src: crate::path::graph::Squares,
    c: int,
)
    requires
        src(c),
    ensures
        crate::path::graph::dist(st, src, c) == 0,
{
    assert(crate::path::graph::within(st, src, c, 0));
    assert(crate::path::graph::is_dist(st, src, c, 0));
    crate::path::graph::lemma_dist_is(st, src, c, 0);
}

proof fn lemma_counted(f: Seq<u8>, x: u8, n: int, a: int, b: int)
    requires
        0 <= n <= f.len(),
        0 <= a < n,
        0 <= b < n,
        f[a] == x,
    ensures
        count_of(f, x, n) >= 1,
        a != b && f[b] == x ==> count_of(f, x, n) >= 2,
    decreases n,
{
    if a < n - 1 && b < n - 1 {
        lemma_counted(f, x, n - 1, a, b);
    } else if a < n - 1 {
        lemma_counted(f, x, n - 1, a, a);
    } else if b < n - 1 && f[b] == x {
        lemma_counted(f, x, n - 1, b, b);
    } else {
        lemma_count_nonneg(f, x, n - 1);
    }
}

proof fn lemma_count_nonneg(f: Seq<u8>, x: u8, n: int)
    ensures
        count_of(f, x, n) >= 0,
    decreases n,
{
    if n > 0 {
        lemma_count_nonneg(f, x, n - 1);
    }
}

proof fn lemma_counted_once(f: Seq<u8>, x: u8, n: int, a: int)
    requires
        0 <= n <= f.len(),
        forall|i: int| 0 <= i < n && i != a ==> #[trigger] f[i] != x,
    ensures
        count_of(f, x, n) <= (if 0 <= a < n {
            1int
        } else {
            0
        }),
    decreases n,
{
    if n > 0 {
        lemma_counted_once(f, x, n - 1, a);
        assert(n - 1 != a ==> f[n - 1] != x);
    }
}

/// The width that the net gets to see is that of the opponent's way: the cells,
/// the pawn's own among them, that are as far from the opponent's goal row as the
/// opponent's pawn.
pub proof fn lemma_net_sees_the_opponents_width(x: NetInput, s: AceState, c: int)
    requires
        describes(x, s),
        s.wf(),
        0 <= c < 81,
        c != s.pawn(1 - s.turn),
    ensures
        ({
            let st = wall_steps(s.h, s.v);
            let goal = goal_squares(grid_player(1 - s.turn));
            let far = s.goal_dist(1 - s.turn);
            &&& x.width_opp >= 1
            &&& crate::path::graph::dist(st, goal, c) == far ==> x.width_opp >= 2
            &&& (forall|t: int|
                0 <= t < 81 && t != s.pawn(1 - s.turn) ==> #[trigger] crate::path::graph::dist(
                    st,
                    goal,
                    t,
                ) != far) ==> x.width_opp == 1
        }),
{
    let st = wall_steps(s.h, s.v);
    let o = 1 - s.turn;
    let goal = goal_squares(grid_player(o));
    let f = if o == 1 {
        x.goal1@
    } else {
        x.goal0@
    };
    let p = s.pawn(o);
    assert(is_field(f, st, goal));
    assert(f[p] == s.goal_dist(o) && f[c] == crate::path::graph::dist(st, goal, c));
    assert(x.width_opp == count_of(f, f[p], 81));
    lemma_counted(f, f[p], 81, p, c);
    if forall|t: int|
        0 <= t < 81 && t != p ==> #[trigger] crate::path::graph::dist(st, goal, t) != s.goal_dist(
            o,
        ) {
        assert forall|t: int| 0 <= t < 81 && t != p implies #[trigger] f[t] != f[p] by {
            assert(f[t] == crate::path::graph::dist(st, goal, t));
        }
        lemma_counted_once(f, f[p], 81, p);
    }
}

} // verus!
