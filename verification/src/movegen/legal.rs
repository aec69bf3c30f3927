//! Legal moves: pawn steps, jumps and slides, and wall placements that leave
//! both players a way.

use vstd::prelude::*;

use crate::movegen::o1::gen::pseudo_moves::{lemma_slot_moves_distinct, lemma_slot_moves_exact};
use crate::movegen::o1::lookup::{
    generate_pawn_moves_by_slot, generate_pawn_moves_lean_lut, generate_pawn_moves_o1,
    lemma_slot_ops, marks_anchored, marks_clear, mover_pawn_moves_by_slot, mover_pawn_moves_lean,
    wall_masks, WallMasks,
};
use crate::movegen::pawn_bits::{
    generate_pawn_moves_bitboard_with_masks, generate_pawn_moves_shift_slice, lemma_written_twice,
    pawn_moves_into, written,
};
use crate::movegen::rules::{
    anchored, at, collides, keeps_paths, lemma_pawn_moves_exact, lemma_pawn_moves_len,
    lemma_wall_moves_len, loose, mover_pawn_moves_by_axis, oriented_walls, pawn_legal,
    player_pawn_moves, tested, touches_a, touches_b, touches_middle, wall_at, wall_list, wall_moves,
};
use crate::movegen::topology::lemma_loose_wall_keeps_paths;
use crate::path::bfs::BfsScratch;
use crate::path::graph::{board_steps, both_have_paths, pawn_sq};
use crate::path::masks::DirMasks;
use crate::path::parallel::{both_players_reach_goals_grids, lemma_board_reach, WallGrids};
use crate::position::board::{Board, Move, Player, WallOrientation};
use crate::util::bits::{
    ascending, bit64, lemma_ascending_members, lemma_ascending_same, lemma_ascending_skip,
    lemma_bits64, pop_lowest,
};
use crate::util::grid::{slot, slot_set};

verus! {

/// Upper bound on legal moves in any position.
pub const MAX_LEGAL_MOVES: usize = 140;

/// How pawn moves are generated. All modes list the same moves, in their own order.
#[derive(Debug, Clone, Copy, PartialEq, Eq, Structural)]
pub enum PawnGenMode {
    /// Stepwise tests, directions row + 1, column + 1, row - 1, column - 1.
    Scalar,
    /// Step masks built for the call.
    BitboardFreshDirMasks,
    /// Step masks kept with the scratch space.
    BitboardCachedDirMasks,
    /// Stepwise tests by axis.
    ShiftCanStep,
    /// Lookup tables.
    O1Lookup,
    /// Lookup tables next to the opponent only.
    O1LeanLut,
}

impl Default for PawnGenMode {
    fn default() -> (r: Self)
        ensures
            r == PawnGenMode::O1Lookup,
    {
        PawnGenMode::O1Lookup
    }
}

/// The pawn moves of the player on turn in the order of a mode.
pub open spec fn mode_pawn_moves(b: Board, mode: PawnGenMode) -> Seq<Move> {
    match mode {
        PawnGenMode::Scalar => player_pawn_moves(b, b.side_to_move),
        PawnGenMode::BitboardFreshDirMasks => mover_pawn_moves_by_axis(b),
        PawnGenMode::BitboardCachedDirMasks => mover_pawn_moves_by_axis(b),
        PawnGenMode::ShiftCanStep => mover_pawn_moves_by_axis(b),
        PawnGenMode::O1Lookup => mover_pawn_moves_by_slot(b),
        PawnGenMode::O1LeanLut => mover_pawn_moves_lean(b),
    }
}

/// The legal moves of the player on turn: none once a pawn has arrived, else
/// the pawn moves, then the wall moves if the player has a wall left.
pub open spec fn legal_moves(b: Board, mode: PawnGenMode) -> Seq<Move> {
    if b.winner() is Some {
        Seq::empty()
    } else if b.walls_remaining[b.side_to_move.index_spec()] > 0 {
        mode_pawn_moves(b, mode) + wall_moves(b)
    } else {
        mode_pawn_moves(b, mode)
    }
}

/// The pawn moves, unless a pawn has arrived.
pub open spec fn live_pawn_moves(b: Board, mode: PawnGenMode) -> Seq<Move> {
    if b.winner() is Some {
        Seq::empty()
    } else {
        mode_pawn_moves(b, mode)
    }
}

/// Every mode lists exactly the legal pawn moves.
pub proof fn lemma_modes_agree(b: Board, mode: PawnGenMode, mv: Move)
    requires
        b.wf(),
    ensures
        mode_pawn_moves(b, mode).contains(mv) == pawn_legal(
            b.horizontal_walls,
            b.vertical_walls,
            at(b, b.side_to_move),
            at(b, b.side_to_move.opposite_spec()),
            mv,
        ),
{
    let f = at(b, b.side_to_move);
    let o = at(b, b.side_to_move.opposite_spec());
    lemma_pawn_moves_exact(b.horizontal_walls, b.vertical_walls, f, o, mv);
    lemma_slot_moves_exact(b.horizontal_walls, b.vertical_walls, f, o, mv);
}

/// No position has more than `MAX_LEGAL_MOVES` legal moves.
pub proof fn lemma_legal_moves_bounded(b: Board, mode: PawnGenMode)
    requires
        b.wf(),
    ensures
        mode_pawn_moves(b, mode).len() <= 12,
        legal_moves(b, mode).len() <= MAX_LEGAL_MOVES,
{
    let f = at(b, b.side_to_move);
    let o = at(b, b.side_to_move.opposite_spec());
    lemma_pawn_moves_len(b.horizontal_walls, b.vertical_walls, f, o);
    lemma_slot_moves_distinct(b.horizontal_walls, b.vertical_walls, f, o);
    lemma_wall_moves_len(b);
}

/// The listed wall moves are exactly the walls of the rules: in a slot of the
/// grid, colliding with nothing, and leaving both players a way. The lists skip
/// the path test for walls that are not anchored; this says that nothing is
/// lost by that.
pub proof fn lemma_wall_moves_exact(b: Board, mv: Move)
    requires
        both_have_paths(b),
    ensures
        wall_moves(b).contains(mv) <==> (mv matches Move::Wall { row, col, orientation } && row < 8
            && col < 8 && !collides(b, row as int, col as int, orientation) && keeps_paths(
            b,
            row as int,
            col as int,
            orientation,
        )),
{
    let h = oriented_walls(b, WallOrientation::Horizontal);
    let v = oriented_walls(b, WallOrientation::Vertical);
    lemma_oriented_exact(b, WallOrientation::Horizontal, mv);
    lemma_oriented_exact(b, WallOrientation::Vertical, mv);
    let s = wall_moves(b);
    assert(s == h + v);
    if s.contains(mv) {
        let k = choose|k: int| 0 <= k < s.len() && s[k] == mv;
        if k < h.len() {
            assert(h[k] == mv);
        } else {
            assert(v[k - h.len()] == mv);
        }
    }
    if h.contains(mv) {
        let k = choose|k: int| 0 <= k < h.len() && h[k] == mv;
        assert(s[k] == mv);
    }
    if v.contains(mv) {
        let k = choose|k: int| 0 <= k < v.len() && v[k] == mv;
        assert(s[h.len() + k] == mv);
    }
}

proof fn lemma_oriented_exact(b: Board, o: WallOrientation, mv: Move)
    requires
        both_have_paths(b),
    ensures
        oriented_walls(b, o).contains(mv) <==> (mv matches Move::Wall { row, col, orientation }
            && orientation == o && row < 8 && col < 8 && !collides(b, row as int, col as int, o)
            && keeps_paths(b, row as int, col as int, o)),
{
    let p = |i: int| loose(b, i, o);
    let q = |i: int| tested(b, i, o);
    let a = ascending(p, 0, 64);
    let c = ascending(q, 0, 64);
    let x = wall_list(a, o);
    let y = wall_list(c, o);
    let s = oriented_walls(b, o);
    assert(s == x + y);
    lemma_ascending_members(p, 0, 64);
    lemma_ascending_members(q, 0, 64);
    if s.contains(mv) {
        let k = choose|k: int| 0 <= k < s.len() && s[k] == mv;
        if k < x.len() {
            assert(x[k] == wall_at(a[k], o));
            assert(p(a[k]));
            lemma_loose_wall_keeps_paths(b, a[k] / 8, a[k] % 8, o);
        } else {
            assert(y[k - x.len()] == wall_at(c[k - x.len()], o));
            assert(q(c[k - x.len()]));
        }
    }
    if let Move::Wall { row, col, orientation } = mv {
        if orientation == o && row < 8 && col < 8 && !collides(b, row as int, col as int, o)
            && keeps_paths(b, row as int, col as int, o) {
            let i = row * 8 + col;
            assert(i / 8 == row && i % 8 == col);
            if anchored(b, row as int, col as int, o) {
                assert(q(i));
                assert(c.contains(i));
                let k = choose|k: int| 0 <= k < c.len() && c[k] == i;
                assert(y[k] == mv);
                assert(s[x.len() + k] == mv);
            } else {
                assert(p(i));
                assert(a.contains(i));
                let k = choose|k: int| 0 <= k < a.len() && a[k] == i;
                assert(x[k] == mv);
                assert(s[k] == mv);
            }
        }
    }
}

// --- pawns ---

fn generate_pawn_moves_with_mode(
    board: &Board,
    scratch: &BfsScratch,
    out: &mut [Move],
    mode: PawnGenMode,
) -> (n: usize)
    requires
        board.wf(),
        scratch.wf(),
        mode_pawn_moves(*board, mode).len() <= old(out)@.len(),
    ensures
        n == mode_pawn_moves(*board, mode).len(),
        final(out)@ == written(old(out)@, 0, mode_pawn_moves(*board, mode)),
{
    match mode {
        PawnGenMode::Scalar => generate_pawn_moves_scalar_for(board, board.side_to_move, out),
        PawnGenMode::BitboardFreshDirMasks => {
            let masks: DirMasks = DirMasks::from_board(board);
            generate_pawn_moves_bitboard_with_masks(board, &masks, out)
        },
        PawnGenMode::BitboardCachedDirMasks => {
            let masks: DirMasks = scratch.dir_masks(board);
            generate_pawn_moves_bitboard_with_masks(board, &masks, out)
        },
        PawnGenMode::ShiftCanStep => generate_pawn_moves_shift_slice(board, out),
        PawnGenMode::O1Lookup => match &scratch.pawn_tables {
            Some(t) => generate_pawn_moves_o1(t, board, out),
            None => generate_pawn_moves_by_slot(board, out),
        },
        PawnGenMode::O1LeanLut => match &scratch.pawn_tables {
            Some(t) => generate_pawn_moves_lean_lut(t, board, out),
            None => {
                if opponent_adjacent(board) {
                    generate_pawn_moves_by_slot(board, out)
                } else {
                    generate_pawn_moves_shift_slice(board, out)
                }
            },
        },
    }
}

/// Whether the pawns are neighbours.
fn opponent_adjacent(board: &Board) -> (r: bool)
    requires
        board.wf(),
    ensures
        r == (crate::movegen::o1::lookup::enemy_key(
            at(*board, board.side_to_move),
            at(*board, board.side_to_move.opposite_spec()),
        ) != 0),
{
    let side: usize = board.side_to_move.index();
    let (fr, fc) = board.pawns[side];
    let (or, oc) = board.pawns[1 - side];
    let dr: i8 = or as i8 - fr as i8;
    let dc: i8 = oc as i8 - fc as i8;
    (dc == 0 && (dr == 1 || dr == -1)) || (dr == 0 && (dc == 1 || dc == -1))
}

/// Pawn moves of a player, whoever is on turn.
pub fn generate_pawn_moves_scalar_for(board: &Board, player: Player, out: &mut [Move]) -> (n: usize)
    requires
        board.wf(),
        player_pawn_moves(*board, player).len() <= old(out)@.len(),
    ensures
        n == player_pawn_moves(*board, player).len(),
        final(out)@ == written(old(out)@, 0, player_pawn_moves(*board, player)),
{
    let side: usize = player.index();
    let f: (u8, u8) = board.pawns[side];
    let o: (u8, u8) = board.pawns[1 - side];
    pawn_moves_into(board.horizontal_walls, board.vertical_walls, f, o, out)
}

/// Pawn moves of a player, for counting mobility.
pub fn generate_pawn_moves_for(board: &Board, player: Player, out: &mut [Move]) -> (n: usize)
    requires
        board.wf(),
        player_pawn_moves(*board, player).len() <= old(out)@.len(),
    ensures
        n == player_pawn_moves(*board, player).len(),
        final(out)@ == written(old(out)@, 0, player_pawn_moves(*board, player)),
{
    generate_pawn_moves_scalar_for(board, player, out)
}

/// Pawn moves of the player on turn.
pub fn generate_pawn_moves_slice(board: &Board, out: &mut [Move]) -> (n: usize)
    requires
        board.wf(),
        player_pawn_moves(*board, board.side_to_move).len() <= old(out)@.len(),
    ensures
        n == player_pawn_moves(*board, board.side_to_move).len(),
        final(out)@ == written(old(out)@, 0, player_pawn_moves(*board, board.side_to_move)),
{
    generate_pawn_moves_scalar_for(board, board.side_to_move, out)
}

/// Appends the first `n` items of a buffer.
fn append_moves(out: &mut Vec<Move>, buf: &[Move], n: usize)
    requires
        n <= buf@.len(),
    ensures
        final(out)@ == old(out)@ + buf@.subrange(0, n as int),
{
    let mut i: usize = 0;
    assert(out@ =~= old(out)@ + buf@.subrange(0, 0));
    while i < n
        invariant
            i <= n <= buf@.len(),
            out@ == old(out)@ + buf@.subrange(0, i as int),
        decreases n - i,
    {
        out.push(buf[i]);
        assert(out@ =~= old(out)@ + buf@.subrange(0, i + 1));
        i = i + 1;
    }
}

/// Appends the pawn moves of the player on turn.
pub fn generate_pawn_moves_into(board: &Board, out: &mut Vec<Move>)
    requires
        board.wf(),
    ensures
        final(out)@ == old(out)@ + player_pawn_moves(*board, board.side_to_move),
{
    let mut buf: [Move; 8] = [Move::Pawn { row: 0, col: 0 }; 8];
    proof {
        lemma_legal_moves_bounded(*board, PawnGenMode::Scalar);
        lemma_pawn_moves_len(
            board.horizontal_walls,
            board.vertical_walls,
            at(*board, board.side_to_move),
            at(*board, board.side_to_move.opposite_spec()),
        );
    }
    let n: usize = generate_pawn_moves_slice(board, &mut buf);
    append_moves(out, &buf, n);
    assert(buf@.subrange(0, n as int) =~= player_pawn_moves(*board, board.side_to_move));
}

/// The pawn moves of the player on turn.
pub fn generate_pawn_moves(board: &Board) -> (out: Vec<Move>)
    requires
        board.wf(),
    ensures
        out@ == player_pawn_moves(*board, board.side_to_move),
{
    let mut out: Vec<Move> = Vec::new();
    generate_pawn_moves_into(board, &mut out);
    assert(out@ =~= player_pawn_moves(*board, board.side_to_move));
    out
}

/// Pawn moves only, none once a pawn has arrived.
pub fn generate_pawn_moves_slice_mode(
    board: &Board,
    out: &mut [Move],
    scratch: &BfsScratch,
    mode: PawnGenMode,
) -> (n: usize)
    requires
        board.wf(),
        scratch.wf(),
        live_pawn_moves(*board, mode).len() <= old(out)@.len(),
    ensures
        n == live_pawn_moves(*board, mode).len(),
        final(out)@ == written(old(out)@, 0, live_pawn_moves(*board, mode)),
{
    if board.is_terminal().is_some() {
        assert(out@ =~= written(old(out)@, 0, Seq::<Move>::empty()));
        return 0;
    }
    generate_pawn_moves_with_mode(board, scratch, out, mode)
}

// --- walls ---

/// Step grid and pawn squares of one position, for wall trials.
struct WallTrialCtx {
    grids: WallGrids,
    p1: u8,
    p2: u8,
}

impl WallTrialCtx {
    spec fn of(self, b: Board) -> bool {
        &&& self.grids.open.allows(board_steps(b))
        &&& self.p1 == pawn_sq(b, Player::One)
        &&& self.p2 == pawn_sq(b, Player::Two)
        &&& b.wf()
    }

    fn new(board: &Board) -> (r: Self)
        requires
            board.wf(),
        ensures
            r.of(*board),
    {
        let (r1, c1) = board.pawn(Player::One);
        let (r2, c2) = board.pawn(Player::Two);
        WallTrialCtx {
            grids: WallGrids::from_board(board),
            p1: r1 * 9 + c1,
            p2: r2 * 9 + c2,
        }
    }

    /// Whether both players would still reach their far rows with the wall up.
    fn wall_keeps_paths_open(&self, board: &Board, row: u8, col: u8, orientation: WallOrientation) -> (r: bool)
        requires
            self.of(*board),
            row < 8,
            col < 8,
        ensures
            r == keeps_paths(*board, row as int, col as int, orientation),
    {
        let trial: WallGrids = self.grids.placed(board, row, col, orientation);
        proof {
            let after = board.with_wall(row as int, col as int, orientation, true);
            lemma_board_reach(trial.open, after, Player::One, self.p1 as int);
            lemma_board_reach(trial.open, after, Player::Two, self.p2 as int);
        }
        both_players_reach_goals_grids(self.p1, self.p2, &trial)
    }
}

/// Whether both players still have a way with a wall at the slot.
pub fn wall_path_ok_after_place(board: &Board, row: u8, col: u8, orientation: WallOrientation) -> (r:
    bool)
    requires
        board.wf(),
        row < 8,
        col < 8,
    ensures
        r == keeps_paths(*board, row as int, col as int, orientation),
{
    let ctx: WallTrialCtx = WallTrialCtx::new(board);
    ctx.wall_keeps_paths_open(board, row, col, orientation)
}

/// Popping a bit of a set whose members are tested one by one.
proof fn lemma_pop_tested(m: u64, k: int, rest: u64, keep: spec_fn(int) -> bool)
    requires
        0 <= k < 64,
        bit64(m, k),
        forall|i: int| 0 <= i < k ==> !bit64(m, i),
        forall|i: int| 0 <= i < 64 ==> bit64(rest, i) == (bit64(m, i) && i != k),
    ensures
        ascending(|i: int| bit64(m, i) && keep(i), 0, 64) == (if keep(k) {
            seq![k]
        } else {
            Seq::empty()
        }) + ascending(|i: int| bit64(rest, i) && keep(i), 0, 64),
{
    let p = |i: int| bit64(m, i) && keep(i);
    let q = |i: int| bit64(rest, i) && keep(i);
    lemma_ascending_skip(p, 0, k, 64);
    lemma_ascending_skip(q, 0, k + 1, 64);
    lemma_ascending_same(p, q, k + 1, 64);
    assert(ascending(p, k, 64) =~= (if keep(k) {
        seq![k]
    } else {
        Seq::empty()
    }) + ascending(q, k + 1, 64));
}

/// The members of `m` that pass the test.
spec fn passing(m: u64, keep: spec_fn(int) -> bool) -> Seq<int> {
    ascending(|i: int| bit64(m, i) && keep(i), 0, 64)
}

/// The path test, skipped when `skip`.
spec fn trial(b: Board, o: WallOrientation, skip: bool) -> spec_fn(int) -> bool {
    |i: int| skip || keeps_paths(b, i / 8, i % 8, o)
}

/// Writes the walls of a mask that pass the path test, or all of them when
/// the test is to be skipped. The trial state is made when first needed.
fn collect_walls(
    board: &Board,
    mask: u64,
    orientation: WallOrientation,
    skip: bool,
    out: &mut [Move],
    n: usize,
    ctx: &mut Option<WallTrialCtx>,
) -> (r: usize)
    requires
        board.wf(),
        *old(ctx) matches Some(c) ==> c.of(*board),
        n + passing(mask, trial(*board, orientation, skip)).len() <= old(out)@.len(),
    ensures
        *final(ctx) matches Some(c) ==> c.of(*board),
        ({
            let s = wall_list(passing(mask, trial(*board, orientation, skip)), orientation);
            r == n + s.len() && final(out)@ == written(old(out)@, n as int, s)
        }),
{
    let ghost keep = trial(*board, orientation, skip);
    let ghost all = passing(mask, keep);
    let mut bits: u64 = mask;
    let mut m: usize = n;
    let ghost mut done: Seq<int> = Seq::empty();
    proof {
        assert(done + all =~= all);
        assert(out@ =~= written(old(out)@, n as int, wall_list(done, orientation)));
    }
    while bits != 0
        invariant
            board.wf(),
            *ctx matches Some(c) ==> c.of(*board),
            keep == trial(*board, orientation, skip),
            done + passing(bits, keep) == all,
            n + all.len() <= old(out)@.len(),
            m == n + done.len(),
            out@ == written(old(out)@, n as int, wall_list(done, orientation)),
        decreases ascending(|i: int| bit64(bits, i), 0, 64).len(),
    {
        let (bit, rest) = pop_lowest(bits);
        let row: u8 = (bit / 8) as u8;
        let col: u8 = (bit % 8) as u8;
        proof {
            crate::util::bits::lemma_pop_ascending(bits, bit as int, rest);
            lemma_pop_tested(bits, bit as int, rest, keep);
        }
        let ok: bool = if skip {
            true
        } else {
            if ctx.is_none() {
                *ctx = Some(WallTrialCtx::new(board));
            }
            match ctx {
                Some(c) => c.wall_keeps_paths_open(board, row, col, orientation),
                None => false,
            }
        };
        if ok {
            let ghost before = out@;
            assert(all.len() == done.len() + passing(bits, keep).len());
            out[m] = Move::Wall { row, col, orientation };
            m = m + 1;
            proof {
                let more = done.push(bit as int);
                assert(more + passing(rest, keep) =~= done + passing(bits, keep));
                assert(wall_list(more, orientation) =~= wall_list(done, orientation).push(
                    wall_at(bit as int, orientation),
                ));
                assert(out@ =~= written(old(out)@, n as int, wall_list(more, orientation)));
                done = more;
            }
        } else {
            assert(passing(bits, keep) =~= passing(rest, keep));
        }
        bits = rest;
    }
    proof {
        let p = |i: int| bit64(bits, i) && keep(i);
        assert forall|i: int| 0 <= i < 64 implies !(#[trigger] p(i)) by {
            lemma_bits64(0, 0, i);
        }
        lemma_ascending_skip(p, 0, 64, 64);
        assert(done =~= all);
    }
    m
}

/// What the two phases of an orientation list, by predicate.
proof fn lemma_phases(b: Board, clear: u64, held: u64, o: WallOrientation)
    requires
        marks_clear(clear, b, o),
        marks_anchored(held, b, o),
    ensures
        passing(clear & !held, trial(b, o, true)) == ascending(|i: int| loose(b, i, o), 0, 64),
        passing(clear & held, trial(b, o, false)) == ascending(|i: int| tested(b, i, o), 0, 64),
{
    let a = clear & !held;
    let c = clear & held;
    let p1 = |i: int| bit64(a, i) && trial(b, o, true)(i);
    let p2 = |i: int| bit64(c, i) && trial(b, o, false)(i);
    let q1 = |i: int| loose(b, i, o);
    let q2 = |i: int| tested(b, i, o);
    assert forall|i: int| 0 <= i < 64 implies #[trigger] p1(i) == q1(i) by {
        let r = i / 8;
        let k = i % 8;
        assert(r * 8 + k == i);
        lemma_slot_ops(clear, !held, r, k);
        lemma_slot_ops(held, 0, r, k);
        assert(slot(clear, r, k) == !collides(b, r, k, o));
        assert(slot(held, r, k) == anchored(b, r, k, o));
    }
    assert forall|i: int| 0 <= i < 64 implies #[trigger] p2(i) == q2(i) by {
        let r = i / 8;
        let k = i % 8;
        assert(r * 8 + k == i);
        lemma_slot_ops(clear, held, r, k);
        assert(slot(clear, r, k) == !collides(b, r, k, o));
        assert(slot(held, r, k) == anchored(b, r, k, o));
    }
    lemma_ascending_same(p1, q1, 0, 64);
    lemma_ascending_same(p2, q2, 0, 64);
}

/// The walls of one orientation: first those that need no path test, then
/// those that pass it.
fn collect_wall_orientation(
    board: &Board,
    candidates: u64,
    needs_flood: u64,
    orientation: WallOrientation,
    out: &mut [Move],
    n: usize,
    ctx: &mut Option<WallTrialCtx>,
) -> (r: usize)
    requires
        board.wf(),
        *old(ctx) matches Some(c) ==> c.of(*board),
        marks_clear(candidates, *board, orientation),
        marks_anchored(needs_flood, *board, orientation),
        n + oriented_walls(*board, orientation).len() <= old(out)@.len(),
    ensures
        *final(ctx) matches Some(c) ==> c.of(*board),
        r == n + oriented_walls(*board, orientation).len(),
        final(out)@ == written(old(out)@, n as int, oriented_walls(*board, orientation)),
{
    proof {
        lemma_phases(*board, candidates, needs_flood, orientation);
    }
    let ghost s = wall_list(
        ascending(|i: int| loose(*board, i, orientation), 0, 64),
        orientation,
    );
    let ghost t = wall_list(
        ascending(|i: int| tested(*board, i, orientation), 0, 64),
        orientation,
    );
    assert(oriented_walls(*board, orientation) == s + t);
    let m: usize = collect_walls(
        board,
        candidates & !needs_flood,
        orientation,
        true,
        out,
        n,
        ctx,
    );
    let k: usize = collect_walls(
        board,
        candidates & needs_flood,
        orientation,
        false,
        out,
        m,
        ctx,
    );
    proof {
        lemma_written_twice(old(out)@, n as int, s, t);
    }
    k
}

/// Writes the wall moves from position `n` on.
fn generate_wall_moves_slice(board: &Board, out: &mut [Move], n: usize) -> (r: usize)
    requires
        board.wf(),
        n + wall_moves(*board).len() <= old(out)@.len(),
    ensures
        r == n + wall_moves(*board).len(),
        final(out)@ == written(old(out)@, n as int, wall_moves(*board)),
{
    let masks: WallMasks = wall_masks(board);
    let mut ctx: Option<WallTrialCtx> = None;
    let ghost s = oriented_walls(*board, WallOrientation::Horizontal);
    let ghost t = oriented_walls(*board, WallOrientation::Vertical);
    assert(wall_moves(*board) == s + t);
    let m: usize = collect_wall_orientation(
        board,
        masks.l12_h,
        masks.topo_h,
        WallOrientation::Horizontal,
        out,
        n,
        &mut ctx,
    );
    let k: usize = collect_wall_orientation(
        board,
        masks.l12_v,
        masks.topo_v,
        WallOrientation::Vertical,
        out,
        m,
        &mut ctx,
    );
    proof {
        lemma_written_twice(old(out)@, n as int, s, t);
    }
    k
}

/// Appends the wall moves, whatever walls the player has left.
pub fn generate_wall_moves_into(board: &Board, out: &mut Vec<Move>, scratch: &BfsScratch)
    requires
        board.wf(),
    ensures
        final(out)@ == old(out)@ + wall_moves(*board),
{
    let mut buf: [Move; 140] = [
        Move::Wall { row: 0, col: 0, orientation: WallOrientation::Horizontal };
        140
    ];
    proof {
        lemma_wall_moves_len(*board);
    }
    let n: usize = generate_wall_moves_slice(board, &mut buf, 0);
    append_moves(out, &buf, n);
    assert(buf@.subrange(0, n as int) =~= wall_moves(*board));
}

/// The wall moves, whatever walls the player has left.
pub fn generate_wall_moves(board: &Board) -> (out: Vec<Move>)
    requires
        board.wf(),
    ensures
        out@ == wall_moves(*board),
{
    let mut out: Vec<Move> = Vec::new();
    let scratch: BfsScratch = BfsScratch::new();
    generate_wall_moves_into(board, &mut out, &scratch);
    assert(out@ =~= wall_moves(*board));
    out
}

// --- all moves ---

/// Legal moves with a selectable pawn generator.
pub fn generate_legal_moves_slice_mode(
    board: &Board,
    out: &mut [Move],
    scratch: &BfsScratch,
    mode: PawnGenMode,
) -> (n: usize)
    requires
        board.wf(),
        scratch.wf(),
        legal_moves(*board, mode).len() <= old(out)@.len(),
    ensures
        n == legal_moves(*board, mode).len(),
        final(out)@ == written(old(out)@, 0, legal_moves(*board, mode)),
{
    if board.is_terminal().is_some() {
        assert(out@ =~= written(old(out)@, 0, Seq::<Move>::empty()));
        return 0;
    }
    let n: usize = generate_pawn_moves_with_mode(board, scratch, out, mode);
    if board.walls_remaining[board.side_to_move.index()] > 0 {
        proof {
            lemma_written_twice(old(out)@, 0, mode_pawn_moves(*board, mode), wall_moves(*board));
        }
        return generate_wall_moves_slice(board, out, n);
    }
    n
}

/// Legal moves into a caller's buffer.
pub fn generate_legal_moves_slice(board: &Board, out: &mut [Move], scratch: &BfsScratch) -> (n: usize)
    requires
        board.wf(),
        scratch.wf(),
        legal_moves(*board, PawnGenMode::O1Lookup).len() <= old(out)@.len(),
    ensures
        n == legal_moves(*board, PawnGenMode::O1Lookup).len(),
        final(out)@ == written(old(out)@, 0, legal_moves(*board, PawnGenMode::O1Lookup)),
{
    generate_legal_moves_slice_mode(board, out, scratch, PawnGenMode::O1Lookup)
}

/// Replaces the contents of `out` by the legal moves.
pub fn generate_legal_moves_into(board: &Board, out: &mut Vec<Move>, scratch: &BfsScratch)
    requires
        board.wf(),
        scratch.wf(),
    ensures
        final(out)@ == legal_moves(*board, PawnGenMode::O1Lookup),
{
    out.clear();
    let mut buf: [Move; 140] = [Move::Pawn { row: 0, col: 0 }; 140];
    proof {
        lemma_legal_moves_bounded(*board, PawnGenMode::O1Lookup);
    }
    let n: usize = generate_legal_moves_slice(board, &mut buf, scratch);
    append_moves(out, &buf, n);
    assert(out@ =~= legal_moves(*board, PawnGenMode::O1Lookup));
}

/// The legal moves.
pub fn generate_legal_moves(board: &Board) -> (out: Vec<Move>)
    requires
        board.wf(),
    ensures
        out@ == legal_moves(*board, PawnGenMode::O1Lookup),
{
    let mut out: Vec<Move> = Vec::new();
    let scratch: BfsScratch = BfsScratch::new();
    generate_legal_moves_into(board, &mut out, &scratch);
    out
}

// --- single walls ---

/// Whether the word holds a wall at an offset from a slot.
fn slot_at(m: u64, row: u8, col: u8, dr: i8, dc: i8) -> (r: bool)
    requires
        -2 <= dr <= 2,
        -2 <= dc <= 2,
    ensures
        r == slot(m, row + dr, col + dc),
{
    let wr: i16 = row as i16 + dr as i16;
    let wc: i16 = col as i16 + dc as i16;
    if wr < 0 || wr > 7 || wc < 0 || wc > 7 {
        return false;
    }
    slot_set(m, wr as u8, wc as u8)
}

/// Whether a wall at the slot would overlap, cross or run into another.
pub fn wall_collides(board: &Board, row: u8, col: u8, orientation: WallOrientation) -> (r: bool)
    ensures
        r == collides(*board, row as int, col as int, orientation),
{
    let h: u64 = board.horizontal_walls;
    let v: u64 = board.vertical_walls;
    if slot_at(h, row, col, 0, 0) || slot_at(v, row, col, 0, 0) {
        return true;
    }
    match orientation {
        WallOrientation::Horizontal => slot_at(h, row, col, 0, -1) || slot_at(h, row, col, 0, 1),
        WallOrientation::Vertical => slot_at(v, row, col, -1, 0) || slot_at(v, row, col, 1, 0),
    }
}

fn touching_side_a(board: &Board, row: u8, col: u8, orientation: WallOrientation) -> (r: bool)
    ensures
        (r || match orientation {
            WallOrientation::Horizontal => col == 0,
            WallOrientation::Vertical => row == 7,
        }) == touches_a(*board, row as int, col as int, orientation),
{
    let h: u64 = board.horizontal_walls;
    let v: u64 = board.vertical_walls;
    match orientation {
        WallOrientation::Horizontal => slot_at(v, row, col, 0, -1) || slot_at(v, row, col, 1, -1)
            || slot_at(v, row, col, -1, -1) || slot_at(h, row, col, 0, -2),
        WallOrientation::Vertical => slot_at(h, row, col, 1, 0) || slot_at(h, row, col, 1, -1)
            || slot_at(h, row, col, 1, 1) || slot_at(v, row, col, 2, 0),
    }
}

fn touching_side_b(board: &Board, row: u8, col: u8, orientation: WallOrientation) -> (r: bool)
    ensures
        (r || match orientation {
            WallOrientation::Horizontal => col == 7,
            WallOrientation::Vertical => row == 0,
        }) == touches_b(*board, row as int, col as int, orientation),
{
    let h: u64 = board.horizontal_walls;
    let v: u64 = board.vertical_walls;
    match orientation {
        WallOrientation::Horizontal => slot_at(v, row, col, 0, 1) || slot_at(v, row, col, 1, 1)
            || slot_at(v, row, col, -1, 1) || slot_at(h, row, col, 0, 2),
        WallOrientation::Vertical => slot_at(h, row, col, -1, 0) || slot_at(h, row, col, -1, -1)
            || slot_at(h, row, col, -1, 1) || slot_at(v, row, col, -2, 0),
    }
}

fn touching_middle(board: &Board, row: u8, col: u8, orientation: WallOrientation) -> (r: bool)
    ensures
        r == touches_middle(*board, row as int, col as int, orientation),
{
    let h: u64 = board.horizontal_walls;
    let v: u64 = board.vertical_walls;
    match orientation {
        WallOrientation::Horizontal => slot_at(v, row, col, 1, 0) || slot_at(v, row, col, -1, 0),
        WallOrientation::Vertical => slot_at(h, row, col, 0, -1) || slot_at(h, row, col, 0, 1),
    }
}

/// Whether a wall at the slot is held at two of its three points, so that it
/// might close a way off.
pub fn can_wall_block_topology(board: &Board, row: u8, col: u8, orientation: WallOrientation) -> (r:
    bool)
    ensures
        r == anchored(*board, row as int, col as int, orientation),
{
    let (on_a, on_b) = match orientation {
        WallOrientation::Horizontal => (col == 0, col == 7),
        WallOrientation::Vertical => (row == 7, row == 0),
    };
    let side_a: bool = touching_side_a(board, row, col, orientation) || on_a;
    let side_b: bool = touching_side_b(board, row, col, orientation) || on_b;
    let middle: bool = touching_middle(board, row, col, orientation);
    (side_a && side_b) || (side_a && middle) || (side_b && middle)
}

/// Whether a wall at the slot is legal, with the path test only where it can matter.
pub fn is_legal_wall(board: &Board, row: u8, col: u8, orientation: WallOrientation) -> (r: bool)
    requires
        board.wf(),
        row < 8,
        col < 8,
    ensures
        r == (loose(*board, row * 8 + col, orientation) || tested(
            *board,
            row * 8 + col,
            orientation,
        )),
{
    assert((row * 8 + col) / 8 == row && (row * 8 + col) % 8 == col);
    if wall_collides(board, row, col, orientation) {
        return false;
    }
    if !can_wall_block_topology(board, row, col, orientation) {
        return true;
    }
    wall_path_ok_after_place(board, row, col, orientation)
}

} // verus!
