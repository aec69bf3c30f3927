//! How often walls need their paths searched, over the lines of a position.

use vstd::prelude::*;

use crate::movegen::laws::lemma_legal_playable;
use crate::movegen::legal::{
    can_wall_block_topology, generate_legal_moves_slice, legal_moves, lemma_legal_moves_bounded,
    wall_collides, wall_path_ok_after_place, PawnGenMode,
};
use crate::movegen::rules::{anchored, collides, keeps_paths};
use crate::path::bfs::BfsScratch;
use crate::position::board::{lemma_unmake_restores, Board, Move, Undo, WallOrientation};
use crate::util::perft::{lemma_can_play, lemma_played, perft_spec, perft_sum, played};

verus! {

/// What the walls of the nodes came to.
#[derive(Debug, Clone, Copy, PartialEq, Eq, Structural)]
pub struct FloodStats {
    pub nodes: u64,
    /// Nodes where walls can be built.
    pub wall_nodes: u64,
    /// Walls that collide with nothing.
    pub candidates: u64,
    /// Those whose paths must be searched.
    pub flood_needed: u64,
    /// Those of them that cut a path.
    pub flood_rejected: u64,
}

/// The same without bounds.
pub struct Counts {
    pub nodes: nat,
    pub wall_nodes: nat,
    pub candidates: nat,
    pub flood_needed: nat,
    pub flood_rejected: nat,
}

impl Counts {
    pub open spec fn none() -> Counts {
        Counts { nodes: 0, wall_nodes: 0, candidates: 0, flood_needed: 0, flood_rejected: 0 }
    }

    pub open spec fn plus(self, o: Counts) -> Counts {
        Counts {
            nodes: self.nodes + o.nodes,
            wall_nodes: self.wall_nodes + o.wall_nodes,
            candidates: self.candidates + o.candidates,
            flood_needed: self.flood_needed + o.flood_needed,
            flood_rejected: self.flood_rejected + o.flood_rejected,
        }
    }

    /// All counts stay below a limit.
    pub open spec fn fit(self) -> bool {
        &&& self.nodes <= u64::MAX
        &&& self.wall_nodes <= u64::MAX
        &&& self.candidates <= u64::MAX
        &&& self.flood_needed <= u64::MAX
        &&& self.flood_rejected <= u64::MAX
    }
}

impl FloodStats {
    pub open spec fn counts(self) -> Counts {
        Counts {
            nodes: self.nodes as nat,
            wall_nodes: self.wall_nodes as nat,
            candidates: self.candidates as nat,
            flood_needed: self.flood_needed as nat,
            flood_rejected: self.flood_rejected as nat,
        }
    }

    pub fn new() -> (r: Self)
        ensures
            r.counts() == Counts::none(),
    {
        FloodStats { nodes: 0, wall_nodes: 0, candidates: 0, flood_needed: 0, flood_rejected: 0 }
    }
}

pub open spec fn one_if(b: bool) -> nat {
    if b {
        1
    } else {
        0
    }
}

/// The walls of one orientation in the first `n` slots: how many collide with
/// nothing, how many of these need their paths searched, and how many of those
/// cut one.
pub open spec fn slot_counts(b: Board, o: WallOrientation, n: int) -> Counts
    decreases n,
{
    if n <= 0 {
        Counts::none()
    } else {
        let r = (n - 1) / 8;
        let c = (n - 1) % 8;
        let free = !collides(b, r, c, o);
        let held = free && anchored(b, r, c, o);
        slot_counts(b, o, n - 1).plus(
            Counts {
                candidates: one_if(free),
                flood_needed: one_if(held),
                flood_rejected: one_if(held && !keeps_paths(b, r, c, o)),
                ..Counts::none()
            },
        )
    }
}

/// What a node adds.
pub open spec fn node_counts(b: Board) -> Counts {
    let one = Counts { nodes: 1, ..Counts::none() };
    if b.walls_remaining[b.side_to_move.index_spec()] > 0 && b.winner() is None {
        one.plus(Counts { wall_nodes: 1, ..Counts::none() }).plus(
            slot_counts(b, WallOrientation::Horizontal, 64),
        ).plus(slot_counts(b, WallOrientation::Vertical, 64))
    } else {
        one
    }
}

/// What the lines of `depth` legal moves add.
pub open spec fn line_counts(b: Board, depth: nat) -> Counts
    decreases depth, 0nat,
{
    if depth == 0 {
        Counts::none()
    } else {
        let moves = legal_moves(b, PawnGenMode::O1Lookup);
        node_counts(b).plus(branch_counts(b, moves, moves.len() as int, (depth - 1) as nat))
    }
}

/// What the lines that begin with the first `k` moves add.
pub open spec fn branch_counts(b: Board, moves: Seq<Move>, k: int, depth: nat) -> Counts
    decreases depth, k + 1,
{
    if k <= 0 {
        Counts::none()
    } else {
        branch_counts(b, moves, k - 1, depth).plus(
            line_counts(played(b, moves[k - 1]), depth),
        )
    }
}

proof fn lemma_branches_grow(b: Board, moves: Seq<Move>, k: int, n: int, depth: nat)
    requires
        0 <= k <= n,
    ensures
        branch_counts(b, moves, k, depth).nodes <= branch_counts(b, moves, n, depth).nodes,
        branch_counts(b, moves, k, depth).wall_nodes <= branch_counts(
            b,
            moves,
            n,
            depth,
        ).wall_nodes,
        branch_counts(b, moves, k, depth).candidates <= branch_counts(
            b,
            moves,
            n,
            depth,
        ).candidates,
        branch_counts(b, moves, k, depth).flood_needed <= branch_counts(
            b,
            moves,
            n,
            depth,
        ).flood_needed,
        branch_counts(b, moves, k, depth).flood_rejected <= branch_counts(
            b,
            moves,
            n,
            depth,
        ).flood_rejected,
    decreases n - k,
{
    if k < n {
        lemma_branches_grow(b, moves, k, n - 1, depth);
    }
}

/// Counts the walls of one orientation.
pub fn count_flood_outcomes(board: &Board, orientation: WallOrientation, s: &mut FloodStats)
    requires
        board.wf(),
        old(s).counts().plus(slot_counts(*board, orientation, 64)).fit(),
    ensures
        final(s).counts() == old(s).counts().plus(slot_counts(*board, orientation, 64)),
{
    let mut free: u64 = 0;
    let mut held: u64 = 0;
    let mut cut: u64 = 0;
    let mut i: u8 = 0;
    while i < 64
        invariant
            i <= 64,
            board.wf(),
            free <= i,
            held <= i,
            cut <= i,
            slot_counts(*board, orientation, i as int) == (Counts {
                candidates: free as nat,
                flood_needed: held as nat,
                flood_rejected: cut as nat,
                ..Counts::none()
            }),
        decreases 64 - i,
    {
        let row: u8 = i / 8;
        let col: u8 = i % 8;
        if !wall_collides(board, row, col, orientation) {
            free += 1;
            if can_wall_block_topology(board, row, col, orientation) {
                held += 1;
                if !wall_path_ok_after_place(board, row, col, orientation) {
                    cut += 1;
                }
            }
        }
        i += 1;
    }
    s.candidates = s.candidates + free;
    s.flood_needed = s.flood_needed + held;
    s.flood_rejected = s.flood_rejected + cut;
}

/// Counts a node.
fn count_node(board: &Board, s: &mut FloodStats)
    requires
        board.wf(),
        old(s).counts().plus(node_counts(*board)).fit(),
    ensures
        final(s).counts() == old(s).counts().plus(node_counts(*board)),
{
    s.nodes = s.nodes + 1;
    if board.walls_remaining[board.side_to_move.index()] > 0 && board.is_terminal().is_none() {
        s.wall_nodes = s.wall_nodes + 1;
        count_flood_outcomes(board, WallOrientation::Horizontal, s);
        count_flood_outcomes(board, WallOrientation::Vertical, s);
    }
}

/// Counts over the lines of `depth` legal moves; the board is as before
/// afterwards.
pub fn walk(board: &mut Board, depth: u32, bfs: &BfsScratch, s: &mut FloodStats)
    requires
        old(board).wf(),
        bfs.wf(),
        old(board).move_number + depth < u32::MAX,
        old(s).counts().plus(line_counts(*old(board), depth as nat)).fit(),
    ensures
        final(s).counts() == old(s).counts().plus(line_counts(*old(board), depth as nat)),
        *final(board) == *old(board),
    decreases depth,
{
    if depth == 0 {
        return ;
    }
    let ghost b0 = *board;
    let ghost s0 = s.counts();
    let ghost moves = legal_moves(b0, PawnGenMode::O1Lookup);
    let ghost d = (depth - 1) as nat;
    count_node(board, s);
    let ghost s1 = s.counts();
    let mut buf: [Move; 140] = [Move::Pawn { row: 0, col: 0 };140];
    proof {
        lemma_legal_moves_bounded(b0, PawnGenMode::O1Lookup);
    }
    let n: usize = generate_legal_moves_slice(board, &mut buf, bfs);
    let mut i: usize = 0;
    while i < n
        invariant
            i <= n,
            n == moves.len(),
            n <= 140,
            depth >= 1,
            d == (depth - 1) as nat,
            bfs.wf(),
            b0.wf(),
            *board == b0,
            moves == legal_moves(b0, PawnGenMode::O1Lookup),
            forall|k: int| 0 <= k < n ==> #[trigger] buf[k] == moves[k],
            b0.move_number + depth < u32::MAX,
            s1.plus(branch_counts(b0, moves, n as int, d)).fit(),
            s.counts() == s1.plus(branch_counts(b0, moves, i as int, d)),
        decreases n - i,
    {
        let mv: Move = buf[i];
        assert(mv == moves[i as int]);
        proof {
            assert(moves.contains(mv));
            lemma_can_play(b0, mv);
            lemma_branches_grow(b0, moves, i + 1, n as int, d);
        }
        let undo: Undo = board.make_move(mv);
        let ghost after = *board;
        proof {
            lemma_legal_playable(b0, PawnGenMode::O1Lookup, mv, after);
            lemma_played(b0, mv, after);
        }
        walk(board, depth - 1, bfs, s);
        board.unmake_move(undo);
        proof {
            lemma_unmake_restores(b0, mv, after, undo, *board);
        }
        i = i + 1;
    }
}

/// A loose wall is never counted among those that cut a path: no more are
/// rejected than searched, and no more searched than can be built.
pub proof fn lemma_rejected_among_needed(b: Board, o: WallOrientation, n: int)
    requires
        0 <= n,
    ensures
        slot_counts(b, o, n).flood_rejected <= slot_counts(b, o, n).flood_needed <= slot_counts(
            b,
            o,
            n,
        ).candidates <= n,
    decreases n,
{
    if n > 0 {
        lemma_rejected_among_needed(b, o, n - 1);
    }
}

/// The lines of fewer than `depth` legal moves.
pub open spec fn shorter_lines(b: Board, depth: nat) -> nat
    decreases depth,
{
    if depth == 0 {
        0
    } else {
        shorter_lines(b, (depth - 1) as nat) + perft_spec(b, (depth - 1) as nat)
    }
}

/// The same, below the first `k` moves.
spec fn shorter_below(b: Board, moves: Seq<Move>, k: int, depth: nat) -> nat
    decreases depth,
{
    if depth == 0 {
        0
    } else {
        shorter_below(b, moves, k, (depth - 1) as nat) + perft_sum(
            b,
            moves,
            k,
            (depth - 1) as nat,
        )
    }
}

proof fn lemma_below_splits(b: Board, moves: Seq<Move>, k: int, depth: nat)
    requires
        k > 0,
    ensures
        shorter_below(b, moves, k, depth) == shorter_below(b, moves, k - 1, depth)
            + shorter_lines(played(b, moves[k - 1]), depth),
        shorter_below(b, moves, 0, depth) == 0,
    decreases depth,
{
    if depth > 0 {
        lemma_below_splits(b, moves, k, (depth - 1) as nat);
    }
}

proof fn lemma_nothing_below(b: Board, moves: Seq<Move>, depth: nat)
    ensures
        shorter_below(b, moves, 0, depth) == 0,
    decreases depth,
{
    if depth > 0 {
        lemma_nothing_below(b, moves, (depth - 1) as nat);
    }
}

proof fn lemma_shorter_by_first_move(b: Board, depth: nat)
    ensures
        ({
            let moves = legal_moves(b, PawnGenMode::O1Lookup);
            shorter_lines(b, depth + 1) == 1 + shorter_below(b, moves, moves.len() as int, depth)
        }),
    decreases depth,
{
    if depth > 0 {
        lemma_shorter_by_first_move(b, (depth - 1) as nat);
    } else {
        assert(shorter_lines(b, 0) == 0);
        assert(shorter_lines(b, 1) == shorter_lines(b, 0) + perft_spec(b, 0));
    }
}

proof fn lemma_branch_nodes(b: Board, moves: Seq<Move>, k: int, depth: nat)
    requires
        0 <= k <= moves.len(),
    ensures
        branch_counts(b, moves, k, depth).nodes == shorter_below(b, moves, k, depth),
    decreases depth, k + 1,
{
    if k > 0 {
        lemma_branch_nodes(b, moves, k - 1, depth);
        lemma_below_splits(b, moves, k, depth);
        lemma_each_line_is_a_node(played(b, moves[k - 1]), depth);
    } else {
        lemma_nothing_below(b, moves, depth);
    }
}

proof fn lemma_slots_are_no_nodes(b: Board, o: WallOrientation, n: int)
    ensures
        slot_counts(b, o, n).nodes == 0,
        slot_counts(b, o, n).wall_nodes == 0,
    decreases n,
{
    if n > 0 {
        lemma_slots_are_no_nodes(b, o, n - 1);
    }
}

/// A node is counted for every line that is shorter than the depth: as many as
/// the walks of the legal moves to each smaller depth together.
pub proof fn lemma_each_line_is_a_node(b: Board, depth: nat)
    ensures
        line_counts(b, depth).nodes == shorter_lines(b, depth),
    decreases depth, 0nat,
{
    if depth > 0 {
        let moves = legal_moves(b, PawnGenMode::O1Lookup);
        lemma_slots_are_no_nodes(b, WallOrientation::Horizontal, 64);
        lemma_slots_are_no_nodes(b, WallOrientation::Vertical, 64);
        lemma_branch_nodes(b, moves, moves.len() as int, (depth - 1) as nat);
        lemma_shorter_by_first_move(b, (depth - 1) as nat);
    }
}

proof fn lemma_branches_in_order(b: Board, moves: Seq<Move>, k: int, depth: nat)
    ensures
        ({
            let c = branch_counts(b, moves, k, depth);
            &&& c.flood_rejected <= c.flood_needed <= c.candidates <= 128 * c.wall_nodes
            &&& c.wall_nodes <= c.nodes
        }),
    decreases depth, k + 1,
{
    if k > 0 {
        lemma_branches_in_order(b, moves, k - 1, depth);
        lemma_counts_in_order(played(b, moves[k - 1]), depth);
    }
}

/// Over the lines of a position no more walls are rejected than searched, no more
/// searched than can be built, no more than 128 at each node where walls can be
/// built.
pub proof fn lemma_counts_in_order(b: Board, depth: nat)
    ensures
        ({
            let c = line_counts(b, depth);
            &&& c.flood_rejected <= c.flood_needed <= c.candidates <= 128 * c.wall_nodes
            &&& c.wall_nodes <= c.nodes
        }),
    decreases depth, 0nat,
{
    if depth > 0 {
        let moves = legal_moves(b, PawnGenMode::O1Lookup);
        lemma_slots_are_no_nodes(b, WallOrientation::Horizontal, 64);
        lemma_slots_are_no_nodes(b, WallOrientation::Vertical, 64);
        lemma_branches_in_order(b, moves, moves.len() as int, (depth - 1) as nat);
        lemma_rejected_among_needed(b, WallOrientation::Horizontal, 64);
        lemma_rejected_among_needed(b, WallOrientation::Vertical, 64);
    }
}

} // verus!
