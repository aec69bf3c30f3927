//! Win certificates: a search that shows a side can force the win.
//!
//! The certified side moves its pawn closer at every turn; the opponent may
//! play any legal move. Leaving moves out on one's own side only makes the
//! proof harder, so a certificate holds in the full game.

use vstd::prelude::*;

use crate::ace::certsize::{lemma_opening_mirrored, lemma_opening_takes_long, OPENING_NODES};
use crate::ace::convert::{ace_from_board, mirrors};
use crate::ace::game::{
    grid_player, is_h_wall, is_pawn_move, is_v_wall, lemma_ace_unmake_restores, lemma_pawn_cells,
    move_orientation, wall_slot, AceGame, AceState,
};
use crate::ace::race::{
    classify_spec, hands_empty_race_stm_wins, on_goal, race_of, race_settled, tempo_spec,
    turn_adjusted_tempo_advantage,
    wall_graph_distances, RaceVerdict, RACE_RESOLVER_DEPTH_CAP,
};
use crate::arena::start_board;
use crate::path::distance::is_field;
use crate::path::graph::{
    dist, goal_squares, is_dist, lemma_dist_is, lemma_dist_reach, reach, wall_steps, within,
};
use crate::position::board::{Board, Player};
use crate::util::clock::Deadline;

verus! {

/// `m` is legal: one of the pawn's cells, or a legal wall of a side that has one.
pub open spec fn legal_in(s: AceState, m: i16) -> bool {
    ||| is_pawn_move(m) && s.pawn_cells().contains(m)
    ||| (is_h_wall(m) || is_v_wall(m)) && s.wl(s.turn) > 0 && s.wall_legal_spec(
        wall_slot(m),
        move_orientation(m),
    )
}

/// Side `w` can force the win within `n` plies, whatever the opponent does.
pub open spec fn forced(s: AceState, w: int, n: nat) -> bool
    decreases n,
{
    if s.winner_spec() == w {
        true
    } else if s.winner_spec() == 1 - w || n == 0 {
        false
    } else if s.turn == w {
        exists|m: i16| #[trigger] legal_in(s, m) && forced(s.after(m), w, (n - 1) as nat)
    } else {
        &&& exists|m: i16| legal_in(s, m)
        &&& forall|m: i16| #[trigger] legal_in(s, m) ==> forced(s.after(m), w, (n - 1) as nat)
    }
}

/// Side `w` can force the win.
pub open spec fn can_force(s: AceState, w: int) -> bool {
    exists|n: nat| forced(s, w, n)
}

/// The cell is nearer to the goal row of the side to move than its pawn.
pub open spec fn nearer(s: AceState, c: i16) -> bool {
    dist(wall_steps(s.h, s.v), goal_squares(grid_player(s.turn)), c as int) < s.goal_dist(s.turn)
}

/// Side `w` can force the win within `n` plies by pawn moves that bring it
/// nearer each time, whatever the opponent does.
#[verifier::opaque]
pub open spec fn runs_home(s: AceState, w: int, n: nat) -> bool
    decreases n,
{
    if s.winner_spec() == w {
        true
    } else if s.winner_spec() == 1 - w || n == 0 {
        false
    } else if s.turn == w {
        exists|k: int|
            0 <= k < s.pawn_cells().len() && nearer(s, #[trigger] s.pawn_cells()[k]) && runs_home(
                s.after(s.pawn_cells()[k]),
                w,
                (n - 1) as nat,
            )
    } else {
        &&& exists|m: i16| legal_in(s, m)
        &&& forall|m: i16| #[trigger] legal_in(s, m) ==> runs_home(s.after(m), w, (n - 1) as nat)
    }
}

/// More nodes than can be counted.
pub const BEYOND_COUNT: u128 = 0x1_0000_0000_0000_0000;

/// Nodes of the search that shows whether `w` runs home within `n` plies. With
/// `most`, every move that it may try is searched; else, as few as a proof can
/// do with: of the side's own moves one, of the replies all.
pub open spec fn proof_nodes(s: AceState, w: int, n: nat, most: bool) -> int {
    nodes_within(w, n, most)(s)
}

/// The same as a function of the position.
#[verifier::opaque]
pub open spec fn nodes_within(w: int, n: nat, most: bool) -> spec_fn(AceState) -> int
    decreases n,
{
    if n == 0 {
        |s: AceState| 0
    } else {
        let below = nodes_within(w, (n - 1) as nat, most);
        |s: AceState|
            if s.winner_spec() >= 0 {
                0
            } else {
                1 + nodes_below(s, w, most, through(s, below))
            }
    }
}

/// A number for each position as one for each move.
pub open spec fn through(s: AceState, f: spec_fn(AceState) -> int) -> spec_fn(i16) -> int {
    |m: i16| f(s.after(m))
}

/// Nodes after the moves of a position, by the nodes `f` after each.
#[verifier::opaque]
pub open spec fn nodes_below(s: AceState, w: int, most: bool, f: spec_fn(i16) -> int) -> int {
    if s.turn == w {
        own_nodes(s, f, most, s.pawn_cells().len())
    } else {
        reply_nodes(s, f, s.pawn_cells().len()) + if s.wl(s.turn) > 0 {
            wall_nodes(s, f, 64)
        } else {
            0
        }
    }
}

/// Nodes after the move `m`, with `n` plies left before it.
#[verifier::opaque]
pub open spec fn move_nodes(s: AceState, m: i16, w: int, n: nat, most: bool) -> int {
    proof_nodes(s.after(m), w, (n - 1) as nat, most)
}

/// Nodes after each move.
pub open spec fn nodes_after(s: AceState, w: int, n: nat, most: bool) -> spec_fn(i16) -> int {
    |m: i16| move_nodes(s, m, w, n, most)
}

/// Side `w` runs home after the move `m`, with `n` plies left before it.
#[verifier::opaque]
pub open spec fn goes_home(s: AceState, m: i16, w: int, n: nat) -> bool {
    runs_home(s.after(m), w, (n - 1) as nat)
}

/// Nodes after the first `i` pawn moves of the side, of the best where not
/// `most`, by the nodes `f` after each.
pub open spec fn own_nodes(s: AceState, f: spec_fn(i16) -> int, most: bool, i: nat) -> int
    decreases i,
{
    if i == 0 {
        if most {
            0
        } else {
            BEYOND_COUNT as int
        }
    } else {
        let c = s.pawn_cells()[i - 1];
        let rest = own_nodes(s, f, most, (i - 1) as nat);
        if !nearer(s, c) {
            rest
        } else if most {
            rest + f(c)
        } else if f(c) < rest {
            f(c)
        } else {
            rest
        }
    }
}

/// Nodes after the first `i` pawn moves of the opponent.
pub open spec fn reply_nodes(s: AceState, f: spec_fn(i16) -> int, i: nat) -> int
    decreases i,
{
    if i == 0 {
        0
    } else {
        reply_nodes(s, f, (i - 1) as nat) + f(s.pawn_cells()[i - 1])
    }
}

/// Nodes after the wall move `m`, none if it is not legal.
pub open spec fn wall_node(s: AceState, f: spec_fn(i16) -> int, m: i16) -> int {
    if legal_in(s, m) {
        f(m)
    } else {
        0
    }
}

/// Nodes after the walls of a slot.
pub open spec fn slot_nodes(s: AceState, f: spec_fn(i16) -> int, slot_no: int) -> int {
    wall_node(s, f, (100 + slot_no) as i16) + wall_node(s, f, (200 + slot_no) as i16)
}

/// Nodes after the walls of the first `i` slots.
pub open spec fn wall_nodes(s: AceState, f: spec_fn(i16) -> int, i: nat) -> int
    decreases i,
{
    if i == 0 {
        0
    } else {
        wall_nodes(s, f, (i - 1) as nat) + slot_nodes(s, f, i - 1)
    }
}

/// The nodes of one position in terms of those after its moves.
pub proof fn lemma_nodes_of(s: AceState, w: int, n: nat, most: bool)
    ensures
        proof_nodes(s, w, n, most) == (if s.winner_spec() >= 0 || n == 0 {
            0
        } else {
            1 + nodes_below(s, w, most, nodes_after(s, w, n, most))
        }),
{
    reveal(nodes_within);
    if n > 0 {
        reveal(move_nodes);
        assert(through(s, nodes_within(w, (n - 1) as nat, most)) =~= nodes_after(s, w, n, most));
    }
}

/// No search has a negative number of nodes.
pub proof fn lemma_nodes_natural(s: AceState, w: int, n: nat, most: bool)
    ensures
        proof_nodes(s, w, n, most) >= 0,
    decreases n, 1nat,
{
    lemma_nodes_of(s, w, n, most);
    reveal(nodes_below);
    if n > 0 {
        let f = nodes_after(s, w, n, most);
        lemma_after_natural(s, w, n, most);
        lemma_parts_natural(s, f, most, 0, s.pawn_cells().len());
        lemma_parts_natural(s, f, most, 0, 64);
    }
}

/// After no move is the number of nodes negative.
pub proof fn lemma_after_natural(s: AceState, w: int, n: nat, most: bool)
    requires
        n > 0,
    ensures
        forall|m: i16| #[trigger] nodes_after(s, w, n, most)(m) >= 0,
    decreases n, 0nat,
{
    assert forall|m: i16| #[trigger] nodes_after(s, w, n, most)(m) >= 0 by {
        reveal(move_nodes);
        lemma_nodes_natural(s.after(m), w, (n - 1) as nat, most);
    }
}

/// More moves take more nodes, but for the best of one's own.
pub proof fn lemma_parts_natural(s: AceState, f: spec_fn(i16) -> int, most: bool, i: nat, j: nat)
    requires
        i <= j,
        forall|m: i16| #[trigger] f(m) >= 0,
    ensures
        0 <= own_nodes(s, f, most, j),
        most ==> own_nodes(s, f, most, i) <= own_nodes(s, f, most, j),
        !most ==> own_nodes(s, f, most, j) <= own_nodes(s, f, most, i),
        0 <= reply_nodes(s, f, i) <= reply_nodes(s, f, j),
        0 <= wall_nodes(s, f, i) <= wall_nodes(s, f, j),
    decreases j,
{
    if j > 0 {
        if i == j {
            lemma_parts_natural(s, f, most, (j - 1) as nat, (j - 1) as nat);
        } else {
            lemma_parts_natural(s, f, most, i, (j - 1) as nat);
        }
        assert(f(s.pawn_cells()[j - 1]) >= 0);
        assert(f((100 + (j - 1)) as i16) >= 0);
        assert(f((200 + (j - 1)) as i16) >= 0);
    }
}

/// Whether a side runs home, in terms of the positions after its moves.
pub proof fn lemma_runs_home_of(s: AceState, w: int, n: nat)
    ensures
        runs_home(s, w, n) == (if s.winner_spec() == w {
            true
        } else if s.winner_spec() == 1 - w || n == 0 {
            false
        } else if s.turn == w {
            exists|k: int|
                0 <= k < s.pawn_cells().len() && nearer(s, #[trigger] s.pawn_cells()[k])
                    && goes_home(s, s.pawn_cells()[k], w, n)
        } else {
            &&& exists|m: i16| legal_in(s, m)
            &&& forall|m: i16| #[trigger] legal_in(s, m) ==> goes_home(s, m, w, n)
        }),
{
    reveal_with_fuel(runs_home, 1);
    reveal(goes_home);
}

/// Who runs home can force the win.
pub proof fn lemma_runner_forces(s: AceState, w: int, n: nat)
    requires
        runs_home(s, w, n),
        s.wf(),
        0 <= w < 2,
        s.hist.len() + n < usize::MAX,
        s.wl0 <= i32::MAX,
        s.wl1 <= i32::MAX,
    ensures
        forced(s, w, n),
    decreases n,
{
    lemma_runs_home_of(s, w, n);
    if s.winner_spec() == w || s.winner_spec() == 1 - w || n == 0 {
    } else if s.turn == w {
        let k = choose|k: int|
            0 <= k < s.pawn_cells().len() && nearer(s, #[trigger] s.pawn_cells()[k]) && goes_home(
                s,
                s.pawn_cells()[k],
                w,
                n,
            );
        reveal(goes_home);
        let m = s.pawn_cells()[k];
        lemma_pawn_cells(s.h, s.v, s.pawn(s.turn), s.pawn(1 - s.turn));
        assert(legal_in(s, m));
        lemma_legal_playable(s, m);
        lemma_ace_unmake_restores(s, m);
        lemma_runner_forces(s.after(m), w, (n - 1) as nat);
    } else {
        assert forall|m: i16| #[trigger] legal_in(s, m) implies forced(
            s.after(m),
            w,
            (n - 1) as nat,
        ) by {
            reveal(goes_home);
            lemma_legal_playable(s, m);
            lemma_ace_unmake_restores(s, m);
            lemma_runner_forces(s.after(m), w, (n - 1) as nat);
        }
    }
}

/// A side that can arrive with its next move runs home, in a search of one node.
pub proof fn lemma_arrival_runs_home(s: AceState, w: int, k: int, n: nat)
    requires
        s.wf(),
        0 <= w < 2,
        s.turn == w,
        s.winner_spec() < 0,
        0 <= k < s.pawn_cells().len(),
        on_goal(w, s.pawn_cells()[k] as int),
        n > 0,
    ensures
        runs_home(s, w, n),
{
    let c = s.pawn_cells()[k];
    lemma_pawn_cells(s.h, s.v, s.pawn(s.turn), s.pawn(1 - s.turn));
    let st = wall_steps(s.h, s.v);
    let goal = goal_squares(grid_player(w));
    assert(within(st, goal, c as int, 0));
    assert(is_dist(st, goal, c as int, 0));
    lemma_dist_is(st, goal, c as int, 0);
    if reach(st, goal, s.pawn(w)) {
        lemma_dist_reach(st, goal, s.pawn(w));
        assert(!within(st, goal, s.pawn(w), 0));
    }
    assert(nearer(s, c));
    assert(s.after(c).winner_spec() == w);
    lemma_runs_home_of(s.after(c), w, (n - 1) as nat);
    reveal(goes_home);
    lemma_runs_home_of(s, w, n);
}

/// The side to move is one step from its goal row and can take it.
pub open spec fn arrives_next(s: AceState, w: int) -> bool {
    &&& s.turn == w
    &&& s.winner_spec() < 0
    &&& s.goal_dist(w) == 1
    &&& exists|k: int| 0 <= k < s.pawn_cells().len() && on_goal(w, #[trigger] s.pawn_cells()[k] as int)
}

/// A side that is one step from its goal row and can take it is certified by a
/// search of one node.
pub proof fn lemma_arrival_certified(s: AceState, w: int)
    requires
        s.wf(),
        0 <= w < 2,
        arrives_next(s, w),
    ensures
        certifiable(s, w),
        cert_nodes(s, w, true) == 1,
{
    let n = cert_plies(s, w);
    let k = choose|k: int|
        0 <= k < s.pawn_cells().len() && on_goal(w, #[trigger] s.pawn_cells()[k] as int);
    lemma_arrival_runs_home(s, w, k, n);
    lemma_nodes_of(s, w, n, true);
    reveal(nodes_below);
    let f = nodes_after(s, w, n, true);
    lemma_pawn_cells(s.h, s.v, s.pawn(s.turn), s.pawn(1 - s.turn));
    assert forall|j: int|
        0 <= j < s.pawn_cells().len() && nearer(s, #[trigger] s.pawn_cells()[j]) implies f(
        s.pawn_cells()[j],
    ) == 0 by {
        let c = s.pawn_cells()[j];
        let st = wall_steps(s.h, s.v);
        let goal = goal_squares(grid_player(w));
        lemma_dist_reach(st, goal, c as int);
        assert(within(st, goal, c as int, 0));
        assert(s.after(c).winner_spec() >= 0);
        lemma_nodes_of(s.after(c), w, (n - 1) as nat, true);
        reveal(move_nodes);
    }
    lemma_own_nothing(s, f, s.pawn_cells().len());
}

/// Moves that take no nodes take none together.
proof fn lemma_own_nothing(s: AceState, f: spec_fn(i16) -> int, i: nat)
    requires
        i <= s.pawn_cells().len(),
        forall|j: int|
            0 <= j < s.pawn_cells().len() && nearer(s, #[trigger] s.pawn_cells()[j]) ==> f(
                s.pawn_cells()[j],
            ) == 0,
    ensures
        own_nodes(s, f, true, i) == 0,
    decreases i,
{
    if i > 0 {
        lemma_own_nothing(s, f, (i - 1) as nat);
    }
}

/// A legal move can be played.
pub proof fn lemma_legal_playable(s: AceState, m: i16)
    requires
        s.wf(),
        legal_in(s, m),
    ensures
        s.playable(m),
{
    reveal(AceState::wall_legal_spec);
    if !is_pawn_move(m) {
        let o = move_orientation(m);
        let x = wall_slot(m);
        let b = s.grid_board();
        assert(x / 8 * 8 + x % 8 == x);
        lemma_some_grid(s);
        assert(s.grid_is(b));
    }
}

/// Every position shows on some board.
pub proof fn lemma_some_grid(s: AceState)
    requires
        s.wf(),
    ensures
        s.grid_is(s.grid_board()),
{
    let p0: (u8, u8) = ((s.p1 / 9) as u8, (s.p1 % 9) as u8);
    let p1: (u8, u8) = ((s.p0 / 9) as u8, (s.p0 % 9) as u8);
    let arr: [(u8, u8); 2] = [p0, p1];
    assert(arr@ =~= seq![p0, p1]);
    let rest: [u8; 2] = [0, 0];
    let b = Board {
        pawns: arr,
        walls_remaining: rest,
        horizontal_walls: s.h,
        vertical_walls: s.v,
        side_to_move: grid_player(s.turn),
        move_number: 1,
        hash: 0,
        verify: 0,
    };
    assert(s.grid_is(b));
}

/// Nodes spent and the limits.
struct Effort {
    nodes: u64,
    budget: u64,
    deadline: Option<Deadline>,
}

impl Effort {
    /// Whether the budget or the time is used up.
    fn spent(&self) -> (r: bool)
        ensures
            self.nodes >= self.budget ==> r,
            self.deadline is None ==> r == (self.nodes >= self.budget),
    {
        if self.nodes >= self.budget {
            return true;
        }
        match &self.deadline {
            Some(d) => d.passed(),
            None => false,
        }
    }
}

/// What a search within `n` plies finds of `w` running home: only what is so,
/// at the cost of the nodes it needs, and whatever is so where the budget is
/// enough and no clock runs.
spec fn found(e: Effort, f: Effort, r: bool, s: AceState, w: int, n: nat) -> bool {
    &&& f.budget == e.budget
    &&& f.deadline == e.deadline
    &&& f.nodes <= f.budget
    &&& e.nodes <= f.nodes <= e.nodes + proof_nodes(s, w, n, true)
    &&& r ==> runs_home(s, w, n) && f.nodes >= e.nodes + proof_nodes(s, w, n, false)
    &&& e.deadline is None && e.nodes + proof_nodes(s, w, n, true) <= e.budget ==> r == runs_home(
        s,
        w,
        n,
    )
}

/// The same of the search after the move `m`.
spec fn found_after(e: Effort, f: Effort, r: bool, s: AceState, m: i16, w: int, n: nat) -> bool {
    &&& f.budget == e.budget
    &&& f.deadline == e.deadline
    &&& f.nodes <= f.budget
    &&& e.nodes <= f.nodes <= e.nodes + move_nodes(s, m, w, n, true)
    &&& r ==> goes_home(s, m, w, n) && f.nodes >= e.nodes + move_nodes(s, m, w, n, false)
    &&& e.deadline is None && e.nodes + move_nodes(s, m, w, n, true) <= e.budget ==> r == goes_home(
        s,
        m,
        w,
        n,
    )
}

/// Whether `w` wins by force after move `m`, within the plies.
fn child_forced(g: &mut AceGame, m: i16, w: usize, plies: u32, effort: &mut Effort) -> (r: bool)
    requires
        old(effort).nodes <= old(effort).budget,
        old(g).wf(),
        w < 2,
        plies > 0,
        legal_in(old(g)@, m),
        old(g)@.hist.len() + plies < i32::MAX,
        old(g)@.wl0 <= i32::MAX,
        old(g)@.wl1 <= i32::MAX,
    ensures
        final(effort).nodes <= final(effort).budget,
        final(effort).budget == old(effort).budget,
        final(g).wf(),
        final(g)@ == old(g)@,
        found_after(*old(effort), *final(effort), r, old(g)@, m, w as int, plies as nat),
    decreases plies, 0nat, 0nat,
{
    proof {
        lemma_legal_playable(g@, m);
        lemma_ace_unmake_restores(g@, m);
    }
    proof {
        reveal(move_nodes);
        reveal(goes_home);
    }
    g.make_move(m);
    let r: bool = cert_rec(g, w, plies - 1, effort);
    g.unmake_move();
    r
}

/// Whether `w` wins by force after each legal wall of the slot, and whether
/// there is one.
fn slot_forced(g: &mut AceGame, slot_no: usize, w: usize, plies: u32, effort: &mut Effort) -> (r: (bool, bool))
    requires
        old(effort).nodes <= old(effort).budget,
        old(g).wf(),
        slot_no < 64,
        w < 2,
        plies > 0,
        old(g)@.wl(old(g)@.turn) > 0,
        old(g)@.hist.len() + plies < i32::MAX,
        old(g)@.wl0 <= i32::MAX,
        old(g)@.wl1 <= i32::MAX,
    ensures
        final(effort).nodes <= final(effort).budget,
        final(effort).budget == old(effort).budget,
        final(g).wf(),
        final(g)@ == old(g)@,
        final(effort).deadline == old(effort).deadline,
        r.0 ==> forall|m: i16|
            (is_h_wall(m) || is_v_wall(m)) && wall_slot(m) == slot_no && #[trigger] legal_in(
                old(g)@,
                m,
            ) ==> goes_home(old(g)@, m, w as int, plies as nat),
        r.1 ==> exists|m: i16| legal_in(old(g)@, m),
        !r.1 ==> forall|m: i16|
            (is_h_wall(m) || is_v_wall(m)) && wall_slot(m) == slot_no ==> !#[trigger] legal_in(
                old(g)@,
                m,
            ),
        old(effort).nodes <= final(effort).nodes <= old(effort).nodes + slot_nodes(
            old(g)@,
            nodes_after(old(g)@, w as int, plies as nat, true),
            slot_no as int,
        ),
        r.0 ==> final(effort).nodes >= old(effort).nodes + slot_nodes(
            old(g)@,
            nodes_after(old(g)@, w as int, plies as nat, false),
            slot_no as int,
        ),
        !r.0 && old(effort).deadline is None && old(effort).nodes + slot_nodes(
            old(g)@,
            nodes_after(old(g)@, w as int, plies as nat, true),
            slot_no as int,
        ) <= old(effort).budget ==> exists|m: i16| #[trigger]
            legal_in(old(g)@, m) && !goes_home(old(g)@, m, w as int, plies as nat),
    decreases plies, 0nat, 1nat,
{
    let ghost s = g@;
    proof {
        lemma_after_natural(s, w as int, plies as nat, true);
        assert(nodes_after(s, w as int, plies as nat, true)((200 + slot_no) as i16) >= 0);
    }
    let hm: i16 = 100 + slot_no as i16;
    let vm: i16 = 200 + slot_no as i16;
    assert(wall_slot(hm) == slot_no && wall_slot(vm) == slot_no);
    let mut any: bool = false;
    if g.wall_legal(0, slot_no) {
        assert(legal_in(s, hm));
        any = true;
        if !child_forced(g, hm, w, plies, effort) {
            return (false, true);
        }
    }
    if g.wall_legal(1, slot_no) {
        assert(legal_in(s, vm));
        any = true;
        if !child_forced(g, vm, w, plies, effort) {
            return (false, true);
        }
    }
    proof {
        assert forall|m: i16|
            (is_h_wall(m) || is_v_wall(m)) && wall_slot(m) == slot_no && #[trigger] legal_in(
                s,
                m,
            ) implies goes_home(s, m, w as int, plies as nat) by {
            assert(m == hm || m == vm);
        }
    }
    (true, any)
}

/// Whether one of the side's own moves that bring it nearer wins by force.
fn own_forced(g: &mut AceGame, w: usize, plies: u32, effort: &mut Effort) -> (r: bool)
    requires
        old(effort).nodes <= old(effort).budget,
        old(g).wf(),
        w < 2,
        plies > 0,
        old(g)@.hist.len() + plies < i32::MAX,
        old(g)@.wl0 <= i32::MAX,
        old(g)@.wl1 <= i32::MAX,
        old(g)@.turn == w,
    ensures
        final(effort).nodes <= final(effort).budget,
        final(effort).budget == old(effort).budget,
        final(effort).deadline == old(effort).deadline,
        final(g).wf(),
        final(g)@ == old(g)@,
        ({
            let s = old(g)@;
            let most = own_nodes(
                s,
                nodes_after(s, w as int, plies as nat, true),
                true,
                s.pawn_cells().len(),
            );
            let least = own_nodes(
                s,
                nodes_after(s, w as int, plies as nat, false),
                false,
                s.pawn_cells().len(),
            );
            let home = exists|k: int|
                0 <= k < s.pawn_cells().len() && nearer(s, #[trigger] s.pawn_cells()[k])
                    && goes_home(s, s.pawn_cells()[k], w as int, plies as nat);
            &&& old(effort).nodes <= final(effort).nodes <= old(effort).nodes + most
            &&& r ==> home && final(effort).nodes >= old(effort).nodes + least
            &&& old(effort).deadline is None && old(effort).nodes + most <= old(effort).budget
                ==> r == home
        }),
    decreases plies, 0nat, 2nat,
{
    let ghost s = g@;
    let ghost n = plies as nat;
    let ghost e0 = *effort;
    let ghost most = nodes_after(s, w as int, n, true);
    let ghost least = nodes_after(s, w as int, n, false);
    let ghost len = s.pawn_cells().len();
    proof {
        lemma_after_natural(s, w as int, n, true);
        lemma_after_natural(s, w as int, n, false);
        lemma_pawn_cells(s.h, s.v, s.pawn(s.turn), s.pawn(1 - s.turn));
    }
    let mut buf: [i16; 16] = [0i16; 16];
    let cnt: usize = g.gen_pawn_moves(&mut buf, 0);
    assert forall|k: int| 0 <= k < cnt implies #[trigger] buf[k] == s.pawn_cells()[k] by {}
    let mut d: [u8; 81] = [255u8; 81];
    g.compute_dist(w, &mut d);
    let mine: u8 = d[g.pawn[w]];
    let mut i: usize = 0;
    while i < cnt
        invariant
            i <= cnt <= 5,
            cnt == len,
            len == s.pawn_cells().len(),
            forall|k: int| 0 <= k < cnt ==> #[trigger] buf[k] == s.pawn_cells()[k],
            forall|k: int| 0 <= k < cnt ==> 0 <= #[trigger] s.pawn_cells()[k] < 81,
            g.wf(),
            g@ == s,
            s == old(g)@,
            n == plies,
            most == nodes_after(s, w as int, n, true),
            least == nodes_after(s, w as int, n, false),
            forall|m: i16| #[trigger] most(m) >= 0,
            forall|m: i16| #[trigger] least(m) >= 0,
            w < 2,
            plies > 0,
            s.hist.len() + plies < i32::MAX,
            s.wl0 <= i32::MAX,
            s.wl1 <= i32::MAX,
            e0 == *old(effort),
            effort.nodes <= effort.budget,
            effort.budget == e0.budget,
            effort.deadline == e0.deadline,
            s.turn == w,
            is_field(d@, wall_steps(s.h, s.v), goal_squares(grid_player(w as int))),
            mine == s.goal_dist(s.turn),
            e0.nodes <= effort.nodes <= e0.nodes + own_nodes(s, most, true, i as nat),
            e0.deadline is None && e0.nodes + own_nodes(s, most, true, len) <= e0.budget
                ==> forall|k: int|
                0 <= k < i && nearer(s, #[trigger] s.pawn_cells()[k]) ==> !goes_home(
                    s,
                    s.pawn_cells()[k],
                    w as int,
                    n,
                ),
        decreases cnt - i,
    {
        let m: i16 = buf[i];
        assert(m == s.pawn_cells()[i as int]);
        assert(legal_in(s, m));
        assert((d[m as int] < mine) == nearer(s, m));
        proof {
            lemma_parts_natural(s, most, true, (i + 1) as nat, len);
            lemma_parts_natural(s, least, false, (i + 1) as nat, len);
            assert(most(m) >= 0 && least(m) >= 0);
        }
        if d[m as usize] < mine && child_forced(g, m, w, plies, effort) {
            assert(nearer(s, s.pawn_cells()[i as int]));
            return true;
        }
        i = i + 1;
    }
    false
}

/// Whether the side wins by force after each pawn move of the opponent, and
/// whether there is one.
fn replies_forced(g: &mut AceGame, w: usize, plies: u32, effort: &mut Effort) -> (r: (bool, bool))
    requires
        old(effort).nodes <= old(effort).budget,
        old(g).wf(),
        w < 2,
        plies > 0,
        old(g)@.hist.len() + plies < i32::MAX,
        old(g)@.wl0 <= i32::MAX,
        old(g)@.wl1 <= i32::MAX,
    ensures
        final(effort).nodes <= final(effort).budget,
        final(effort).budget == old(effort).budget,
        final(effort).deadline == old(effort).deadline,
        final(g).wf(),
        final(g)@ == old(g)@,
        ({
            let s = old(g)@;
            let most = reply_nodes(
                s,
                nodes_after(s, w as int, plies as nat, true),
                s.pawn_cells().len(),
            );
            let least = reply_nodes(
                s,
                nodes_after(s, w as int, plies as nat, false),
                s.pawn_cells().len(),
            );
            &&& old(effort).nodes <= final(effort).nodes <= old(effort).nodes + most
            &&& r.0 ==> final(effort).nodes >= old(effort).nodes + least
            &&& r.0 ==> forall|m: i16|
                is_pawn_move(m) && #[trigger] legal_in(s, m) ==> goes_home(
                    s,
                    m,
                    w as int,
                    plies as nat,
                )
            &&& r.1 ==> exists|m: i16| legal_in(s, m)
            &&& !r.1 ==> forall|m: i16| is_pawn_move(m) ==> !#[trigger] legal_in(s, m)
            &&& !r.0 && old(effort).deadline is None && old(effort).nodes + most
                <= old(effort).budget ==> exists|m: i16| #[trigger]
                legal_in(s, m) && !goes_home(s, m, w as int, plies as nat)
        }),
    decreases plies, 0nat, 2nat,
{
    let ghost s = g@;
    let ghost n = plies as nat;
    let ghost e0 = *effort;
    let ghost most = nodes_after(s, w as int, n, true);
    let ghost least = nodes_after(s, w as int, n, false);
    let ghost len = s.pawn_cells().len();
    proof {
        lemma_after_natural(s, w as int, n, true);
        lemma_after_natural(s, w as int, n, false);
        lemma_pawn_cells(s.h, s.v, s.pawn(s.turn), s.pawn(1 - s.turn));
    }
    let mut buf: [i16; 16] = [0i16; 16];
    let cnt: usize = g.gen_pawn_moves(&mut buf, 0);
    assert forall|k: int| 0 <= k < cnt implies #[trigger] buf[k] == s.pawn_cells()[k] by {}
    let mut i: usize = 0;
    while i < cnt
        invariant
            i <= cnt <= 5,
            cnt == len,
            len == s.pawn_cells().len(),
            forall|k: int| 0 <= k < cnt ==> #[trigger] buf[k] == s.pawn_cells()[k],
            forall|k: int| 0 <= k < cnt ==> 0 <= #[trigger] s.pawn_cells()[k] < 81,
            g.wf(),
            g@ == s,
            s == old(g)@,
            n == plies,
            most == nodes_after(s, w as int, n, true),
            least == nodes_after(s, w as int, n, false),
            forall|m: i16| #[trigger] most(m) >= 0,
            forall|m: i16| #[trigger] least(m) >= 0,
            w < 2,
            plies > 0,
            s.hist.len() + plies < i32::MAX,
            s.wl0 <= i32::MAX,
            s.wl1 <= i32::MAX,
            e0 == *old(effort),
            effort.nodes <= effort.budget,
            effort.budget == e0.budget,
            effort.deadline == e0.deadline,
            e0.nodes <= effort.nodes <= e0.nodes + reply_nodes(s, most, i as nat),
            effort.nodes >= e0.nodes + reply_nodes(s, least, i as nat),
            forall|k: int|
                0 <= k < i ==> goes_home(s, #[trigger] s.pawn_cells()[k], w as int, n),
        decreases cnt - i,
    {
        let m: i16 = buf[i];
        assert(m == s.pawn_cells()[i as int]);
        assert(legal_in(s, m));
        proof {
            lemma_parts_natural(s, most, true, (i + 1) as nat, len);
            assert(most(m) >= 0 && least(m) >= 0);
        }
        if !child_forced(g, m, w, plies, effort) {
            return (false, true);
        }
        i = i + 1;
    }
    proof {
        assert forall|m: i16| is_pawn_move(m) && #[trigger] legal_in(s, m) implies goes_home(
            s,
            m,
            w as int,
            n,
        ) by {
            let k = choose|k: int| 0 <= k < s.pawn_cells().len() && s.pawn_cells()[k] == m;
            assert(goes_home(s, s.pawn_cells()[k], w as int, n));
        }
        if len > 0 {
            assert(s.pawn_cells().contains(s.pawn_cells()[0]));
            assert(legal_in(s, s.pawn_cells()[0]));
        }
    }
    (true, cnt > 0)
}

/// Whether the side wins by force after each legal wall of the opponent, and
/// whether there is one.
fn walls_forced(g: &mut AceGame, w: usize, plies: u32, effort: &mut Effort) -> (r: (bool, bool))
    requires
        old(effort).nodes <= old(effort).budget,
        old(g).wf(),
        w < 2,
        plies > 0,
        old(g)@.hist.len() + plies < i32::MAX,
        old(g)@.wl0 <= i32::MAX,
        old(g)@.wl1 <= i32::MAX,
        old(g)@.wl(old(g)@.turn) > 0,
    ensures
        final(effort).nodes <= final(effort).budget,
        final(effort).budget == old(effort).budget,
        final(effort).deadline == old(effort).deadline,
        final(g).wf(),
        final(g)@ == old(g)@,
        ({
            let s = old(g)@;
            let most = wall_nodes(s, nodes_after(s, w as int, plies as nat, true), 64);
            let least = wall_nodes(s, nodes_after(s, w as int, plies as nat, false), 64);
            &&& old(effort).nodes <= final(effort).nodes <= old(effort).nodes + most
            &&& r.0 ==> final(effort).nodes >= old(effort).nodes + least
            &&& r.0 ==> forall|m: i16|
                !is_pawn_move(m) && #[trigger] legal_in(s, m) ==> goes_home(
                    s,
                    m,
                    w as int,
                    plies as nat,
                )
            &&& r.1 ==> exists|m: i16| legal_in(s, m)
            &&& r.0 && !r.1 ==> forall|m: i16| !is_pawn_move(m) ==> !#[trigger] legal_in(s, m)
            &&& !r.0 && old(effort).deadline is None && old(effort).nodes + most
                <= old(effort).budget ==> exists|m: i16| #[trigger]
                legal_in(s, m) && !goes_home(s, m, w as int, plies as nat)
        }),
    decreases plies, 0nat, 2nat,
{
    let ghost s = g@;
    let ghost n = plies as nat;
    let ghost e0 = *effort;
    let ghost most = nodes_after(s, w as int, n, true);
    let ghost least = nodes_after(s, w as int, n, false);
    proof {
        lemma_after_natural(s, w as int, n, true);
        lemma_after_natural(s, w as int, n, false);
    }
    let mut any: bool = false;
    let mut slot_no: usize = 0;
    while slot_no < 64
        invariant
            slot_no <= 64,
            g.wf(),
            g@ == s,
            s == old(g)@,
            n == plies,
            most == nodes_after(s, w as int, n, true),
            least == nodes_after(s, w as int, n, false),
            forall|m: i16| #[trigger] most(m) >= 0,
            forall|m: i16| #[trigger] least(m) >= 0,
            w < 2,
            plies > 0,
            s.hist.len() + plies < i32::MAX,
            s.wl0 <= i32::MAX,
            s.wl1 <= i32::MAX,
            e0 == *old(effort),
            effort.nodes <= effort.budget,
            effort.budget == e0.budget,
            effort.deadline == e0.deadline,
            s.wl(s.turn) > 0,
            e0.nodes <= effort.nodes <= e0.nodes + wall_nodes(s, most, slot_no as nat),
            effort.nodes >= e0.nodes + wall_nodes(s, least, slot_no as nat),
            any ==> exists|m: i16| legal_in(s, m),
            !any ==> forall|m: i16|
                (is_h_wall(m) || is_v_wall(m)) && wall_slot(m) < slot_no ==> !#[trigger] legal_in(
                    s,
                    m,
                ),
            forall|m: i16|
                (is_h_wall(m) || is_v_wall(m)) && wall_slot(m) < slot_no && #[trigger] legal_in(
                    s,
                    m,
                ) ==> goes_home(s, m, w as int, n),
        decreases 64 - slot_no,
    {
        proof {
            lemma_parts_natural(s, most, true, (slot_no + 1) as nat, 64);
        }
        let (ok, some) = slot_forced(g, slot_no, w, plies, effort);
        if !ok {
            return (false, some);
        }
        any = any || some;
        slot_no = slot_no + 1;
    }
    (true, any)
}

/// Whether `w` wins by force within the plies, as far as the node budget tells.
fn cert_rec(g: &mut AceGame, w: usize, plies: u32, effort: &mut Effort) -> (r: bool)
    requires
        old(effort).nodes <= old(effort).budget,
        old(g).wf(),
        w < 2,
        old(g)@.hist.len() + plies < i32::MAX,
        old(g)@.wl0 <= i32::MAX,
        old(g)@.wl1 <= i32::MAX,
    ensures
        final(effort).nodes <= final(effort).budget,
        final(g).wf(),
        final(g)@ == old(g)@,
        found(*old(effort), *final(effort), r, old(g)@, w as int, plies as nat),
        old(g)@.winner_spec() == w ==> r,
    decreases plies, 1nat, 0nat,
{
    let ghost s = g@;
    let ghost n = plies as nat;
    proof {
        lemma_nodes_natural(s, w as int, n, true);
        lemma_nodes_of(s, w as int, n, true);
        lemma_nodes_of(s, w as int, n, false);
        lemma_runs_home_of(s, w as int, n);
        reveal(nodes_below);
        if plies > 0 {
            let most = nodes_after(s, w as int, n, true);
            lemma_after_natural(s, w as int, n, true);
            lemma_parts_natural(s, most, true, 0, s.pawn_cells().len());
            lemma_parts_natural(s, most, true, 0, 64);
        }
    }
    let won: i32 = g.winner();
    if won == w as i32 {
        return true;
    }
    if won >= 0 || plies == 0 || effort.spent() {
        return false;
    }
    effort.nodes = effort.nodes + 1;
    if g.turn == w {
        return own_forced(g, w, plies, effort);
    }
    let (ok, any) = replies_forced(g, w, plies, effort);
    if !ok {
        return false;
    }
    if g.wl[g.turn] > 0 {
        let (ok, some) = walls_forced(g, w, plies, effort);
        return ok && (any || some);
    }
    any
}

/// What a certification found and how many nodes it took.
#[derive(Clone, Copy, Debug)]
pub struct CertifyReport {
    pub proven: Option<usize>,
    pub nodes: u64,
}

/// Plies of the search for a certificate.
pub open spec fn cert_plies(s: AceState, w: int) -> nat {
    (2 * s.goal_dist(w) + 2) as nat
}

/// `w` runs home within the plies of the search.
pub open spec fn certifiable(s: AceState, w: int) -> bool {
    runs_home(s, w, cert_plies(s, w))
}

/// Nodes of the search for a certificate of `w`.
pub open spec fn cert_nodes(s: AceState, w: int, most: bool) -> int {
    proof_nodes(s, w, cert_plies(s, w), most)
}

/// The side that is tried first where none is asked for.
pub open spec fn first_tried(s: AceState) -> int {
    if tempo_spec(s) > 0 {
        0
    } else {
        1
    }
}

/// What a certification finds of a position. A side is proven only if it runs
/// home, at the cost of a proof at least. Where the budget covers the search
/// and no clock runs, whoever runs home is proven; of two, the first tried.
pub open spec fn certified(
    s: AceState,
    budget: u64,
    clockless: bool,
    side: Option<usize>,
    r: CertifyReport,
) -> bool {
    let first = first_tried(s);
    &&& r.proven matches Some(w) ==> certifiable(s, w as int) && cert_nodes(s, w as int, false)
        <= r.nodes
    &&& match side {
        Some(w) => {
            &&& r.nodes <= cert_nodes(s, w as int, true)
            &&& clockless && cert_nodes(s, w as int, true) <= budget ==> ((r.proven is Some)
                == certifiable(s, w as int))
        },
        None => {
            &&& clockless && cert_nodes(s, first, true) <= budget && certifiable(s, first)
                ==> r.proven == Some(first as usize)
            &&& clockless && cert_nodes(s, first, true) + cert_nodes(s, 1 - first, true) <= budget
                && !certifiable(s, first) ==> r.proven == (if certifiable(s, 1 - first) {
                Some((1 - first) as usize)
            } else {
                None
            })
        },
    }
}

/// A certification within the budget ends with `proven`.
pub open spec fn certified_as(
    s: AceState,
    budget: u64,
    clockless: bool,
    side: Option<usize>,
    proven: Option<usize>,
) -> bool {
    exists|c: CertifyReport| #[trigger]
        certified(s, budget, clockless, side, c) && c.nodes <= budget && c.proven == proven
}

/// Tries to certify a side, or the side ahead in the race first and then the
/// other, within a node budget and a deadline.
pub fn certify(
    g: &mut AceGame,
    budget: u64,
    deadline: Option<Deadline>,
    side: Option<usize>,
) -> (r: CertifyReport)
    requires
        old(g).wf(),
        old(g)@.hist.len() < i32::MAX - 1000,
        old(g)@.wl0 <= i32::MAX,
        old(g)@.wl1 <= i32::MAX,
        side matches Some(w) ==> w < 2,
    ensures
        final(g).wf(),
        final(g)@ == old(g)@,
        r.proven matches Some(w) ==> w < 2 && can_force(old(g)@, w as int),
        r.proven is Some && side is Some ==> r.proven == side,
        r.nodes <= budget,
        side is Some && old(g)@.winner_spec() == side->0 ==> r.proven == side,
        certified(old(g)@, budget, deadline is None, side, r),
        side is Some && deadline is None && budget >= 1 && arrives_next(
            old(g)@,
            side->0 as int,
        ) ==> r.proven == side,
{
    proof {
        if side is Some && arrives_next(g@, side->0 as int) {
            lemma_arrival_certified(g@, side->0 as int);
        }
    }
    let (d0, d1) = wall_graph_distances(g);
    let mut effort: Effort = Effort { nodes: 0, budget, deadline };
    let proven: Option<usize> = match side {
        Some(w) => {
            if try_side(g, w, if w == 0 { d0 } else { d1 }, &mut effort) {
                Some(w)
            } else {
                None
            }
        },
        None => {
            let first: usize = if turn_adjusted_tempo_advantage(g) > 0 {
                0
            } else {
                1
            };
            if try_side(g, first, if first == 0 { d0 } else { d1 }, &mut effort) {
                Some(first)
            } else if try_side(g, 1 - first, if first == 0 { d1 } else { d0 }, &mut effort) {
                Some(1 - first)
            } else {
                None
            }
        },
    };
    CertifyReport { proven, nodes: effort.nodes }
}

/// Tries one side, as deep as its race is long.
fn try_side(g: &mut AceGame, w: usize, d: u8, effort: &mut Effort) -> (r: bool)
    requires
        old(effort).nodes <= old(effort).budget,
        old(g).wf(),
        w < 2,
        d == old(g)@.goal_dist(w as int),
        old(g)@.hist.len() < i32::MAX - 1000,
        old(g)@.wl0 <= i32::MAX,
        old(g)@.wl1 <= i32::MAX,
    ensures
        final(effort).nodes <= final(effort).budget,
        final(effort).budget == old(effort).budget,
        final(g).wf(),
        final(g)@ == old(g)@,
        r ==> can_force(old(g)@, w as int),
        old(g)@.winner_spec() == w ==> r,
        found(
            *old(effort),
            *final(effort),
            r,
            old(g)@,
            w as int,
            cert_plies(old(g)@, w as int),
        ),
{
    let plies: u32 = 2 * d as u32 + 2;
    let r: bool = cert_rec(g, w, plies, effort);
    proof {
        if r {
            lemma_runner_forces(g@, w as int, plies as nat);
            assert(forced(old(g)@, w as int, plies as nat));
        }
    }
    r
}

/// The player of an index.
pub open spec fn player_of(idx: int) -> Player {
    if idx == 0 {
        Player::One
    } else {
        Player::Two
    }
}

fn player_from_ace(idx: usize) -> (p: Player)
    ensures
        p == player_of(idx as int),
{
    if idx == 0 {
        Player::One
    } else {
        Player::Two
    }
}

/// `p`, if `side` allows it.
pub open spec fn filtered(p: Player, side: Option<Player>) -> Option<Player> {
    if side is None || side == Some(p) {
        Some(p)
    } else {
        None
    }
}

fn filter_side(p: Player, side: Option<Player>) -> (r: Option<Player>)
    ensures
        r == filtered(p, side),
{
    match side {
        None => Some(p),
        Some(s) => {
            if s == p {
                Some(p)
            } else {
                None
            }
        },
    }
}

/// What `certify_board` may return for a position `s`: the winner where a pawn
/// has arrived; the winner of the race where both hands are empty, or nothing
/// where the race stays unsettled; else only a side that can force the win.
pub open spec fn certificate_ok(s: AceState, side: Option<Player>, r: Option<Player>) -> bool {
    if s.winner_spec() >= 0 {
        r == filtered(player_of(s.winner_spec()), side)
    } else if s.wl0 == 0 && s.wl1 == 0 {
        ||| exists|stm_wins: bool| #[trigger]
            race_settled(s, stm_wins) && r == filtered(
                player_of(
                    if stm_wins {
                        s.turn
                    } else {
                        1 - s.turn
                    },
                ),
                side,
            )
        ||| {
            &&& r is None
            &&& classify_spec(s) == RaceVerdict::NeedsProof
            &&& race_of(s).rank() > RACE_RESOLVER_DEPTH_CAP
        }
    } else {
        r matches Some(p) ==> (side is None || side == Some(p)) && can_force(
            s,
            p.index_spec(),
        )
    }
}

/// What `certify_board` finds in a position with walls in hand, by the nodes
/// that a certification may take.
pub open spec fn certificate_found(
    s: AceState,
    budget: u64,
    clockless: bool,
    side: Option<Player>,
    r: Option<Player>,
) -> bool {
    certified_as(s, budget, clockless, index_of(side), index_of(r))
}

/// The index of a player, if there is one.
pub open spec fn index_of(p: Option<Player>) -> Option<usize> {
    match p {
        Some(x) => Some(x.index_spec() as usize),
        None => None,
    }
}

/// Looks for a proof that a side wins the position of a board.
///
/// `side` asks for one side; without it the side ahead in the race is tried
/// first. `deadline_ms` caps the time; 0 is no cap. `None` means not proven
/// within the limits.
pub fn certify_board(board: &Board, budget: u64, deadline_ms: u64, side: Option<Player>) -> (r: Option<
    Player,
>)
    requires
        board.wf(),
    ensures
        exists|s: AceState|
            #![trigger mirrors(*board, s)]
            s.wf() && mirrors(*board, s) && certificate_ok(s, side, r) && (s.winner_spec() < 0 && (
            s.wl0 > 0 || s.wl1 > 0) ==> certificate_found(s, budget, deadline_ms == 0, side, r)),
        start_board(*board) && budget <= OPENING_NODES ==> r is None,
{
    let mut g: AceGame = ace_from_board(board);
    let ghost s = g@;
    proof {
        if start_board(*board) {
            lemma_opening_mirrored(*board, s);
            lemma_opening_takes_long(s, 0);
            lemma_opening_takes_long(s, 1);
        }
    }
    let immediate: i32 = g.winner();
    if immediate >= 0 {
        let r: Option<Player> = filter_side(player_from_ace(immediate as usize), side);
        assert(mirrors(*board, s) && certificate_ok(s, side, r));
        return r;
    }
    if g.wl[0] == 0 && g.wl[1] == 0 {
        match hands_empty_race_stm_wins(&mut g) {
            Some(stm_wins) => {
                let idx: usize = if stm_wins {
                    g.turn
                } else {
                    1 - g.turn
                };
                let r: Option<Player> = filter_side(player_from_ace(idx), side);
                assert(race_settled(s, stm_wins));
                assert(mirrors(*board, s) && certificate_ok(s, side, r));
                return r;
            },
            None => {
                assert(mirrors(*board, s) && certificate_ok(s, side, None));
                return None;
            },
        }
    }
    let want: Option<usize> = match side {
        Some(p) => Some(p.index()),
        None => None,
    };
    let deadline: Option<Deadline> = if deadline_ms > 0 {
        Some(Deadline::new(deadline_ms))
    } else {
        None
    };
    let report: CertifyReport = certify(&mut g, budget, deadline, want);
    assert(certified(s, budget, deadline is None, want, report));
    assert(certified_as(s, budget, deadline is None, want, report.proven));
    assert(want == index_of(side));
    match report.proven {
        Some(w) => {
            let r: Option<Player> = Some(player_from_ace(w));
            assert(certificate_found(s, budget, deadline_ms == 0, side, r));
            assert(mirrors(*board, s) && certificate_ok(s, side, r));
            r
        },
        None => {
            assert(certificate_found(s, budget, deadline_ms == 0, side, None));
            assert(mirrors(*board, s) && certificate_ok(s, side, None));
            None
        },
    }
}

/// More plies do not hurt a runner.
pub proof fn lemma_runs_home_in_more(s: AceState, w: int, n: nat, m: nat)
    requires
        runs_home(s, w, n),
        n <= m,
    ensures
        runs_home(s, w, m),
    decreases n,
{
    lemma_runs_home_of(s, w, n);
    lemma_runs_home_of(s, w, m);
    if s.winner_spec() == w || s.winner_spec() == 1 - w || n == 0 {
    } else {
        reveal(goes_home);
        if s.turn == w {
            let k = choose|k: int|
                0 <= k < s.pawn_cells().len() && nearer(s, #[trigger] s.pawn_cells()[k])
                    && goes_home(s, s.pawn_cells()[k], w, n);
            lemma_runs_home_in_more(
                s.after(s.pawn_cells()[k]),
                w,
                (n - 1) as nat,
                (m - 1) as nat,
            );
            assert(goes_home(s, s.pawn_cells()[k], w, m));
        } else {
            assert forall|x: i16| #[trigger] legal_in(s, x) implies goes_home(s, x, w, m) by {
                lemma_runs_home_in_more(s.after(x), w, (n - 1) as nat, (m - 1) as nat);
            }
        }
    }
}

/// Whoever runs home within twice its distance and two plies is certified, if the
/// budget covers the search and no clock runs.
pub proof fn lemma_runner_is_certified(
    s: AceState,
    w: usize,
    n: nat,
    budget: u64,
    r: CertifyReport,
)
    requires
        w < 2,
        runs_home(s, w as int, n),
        n <= 2 * s.goal_dist(w as int) + 2,
        cert_nodes(s, w as int, true) <= budget,
        certified(s, budget, true, Some(w), r),
        r.proven is Some ==> r.proven == Some(w),
    ensures
        r.proven == Some(w),
{
    lemma_runs_home_in_more(s, w as int, n, cert_plies(s, w as int));
}

/// With a budget that covers the search for both sides, and no clock, a
/// certification without a side finds whoever runs home: never both do.
pub proof fn lemma_certification_finds_the_winner(
    s: AceState,
    w: int,
    budget: u64,
    r: CertifyReport,
)
    requires
        s.wf(),
        0 <= w < 2,
        s.hist.len() + 600 < usize::MAX,
        s.wl0 <= i32::MAX,
        s.wl1 <= i32::MAX,
        certified(s, budget, true, None, r),
        cert_nodes(s, 0, true) + cert_nodes(s, 1, true) <= budget,
    ensures
        certifiable(s, w) ==> r.proven == Some(w as usize),
        r.proven == Some(w as usize) ==> certifiable(s, w) && can_force(s, w),
        certifiable(s, w) ==> !certifiable(s, 1 - w),
{
    lemma_nodes_natural(s, 0, cert_plies(s, 0), true);
    lemma_nodes_natural(s, 1, cert_plies(s, 1), true);
    crate::ace::evallaws::lemma_goal_dist_range(s, 0);
    crate::ace::evallaws::lemma_goal_dist_range(s, 1);
    if certifiable(s, 0) {
        lemma_runner_forces(s, 0, cert_plies(s, 0));
        assert(can_force(s, 0));
        crate::ace::racelaws::lemma_other_cannot_force(s, 0);
    }
    if certifiable(s, 1) {
        lemma_runner_forces(s, 1, cert_plies(s, 1));
        assert(can_force(s, 1));
        crate::ace::racelaws::lemma_other_cannot_force(s, 1);
    }
}

/// A certificate of a board is never for a side that was not asked for, and with
/// walls in hand never for a side that cannot force the win.
pub proof fn lemma_certificate_is_for_the_side_asked(
    s: AceState,
    side: Option<Player>,
    r: Option<Player>,
    p: Player,
)
    requires
        certificate_ok(s, side, r),
        r == Some(p),
    ensures
        side is None || side == Some(p),
        s.winner_spec() >= 0 ==> s.winner_spec() == p.index_spec(),
        s.winner_spec() < 0 && (s.wl0 > 0 || s.wl1 > 0) ==> can_force(s, p.index_spec()),
{
}

} // verus!
