//! The moves that a search looks at.

use vstd::prelude::*;

use crate::cat::attention::{max_int, CorridorAttention};
use crate::cat::moves::move_on_board;
use crate::cat::prune::{
    cuts_path, dead_zone, gap_play_zone_mask, in_gap_zone, opp_gain_spec, opp_path_gain,
    our_gain_spec, our_path_gain, touched, wall_intersects_path, wall_should_search,
    worth_searching,
};
use crate::movegen::laws::lemma_legal_fits;
use crate::movegen::legal::{
    generate_legal_moves_slice, legal_moves, lemma_legal_moves_bounded, PawnGenMode,
};
use crate::path::bfs::BfsScratch;
use crate::path::graph::{
    back, board_steps, dist, goal_dist, goal_squares, has_path, is_dist, lemma_dist_is,
    lemma_dist_reach, lemma_wall_steps_stay, lemma_wall_steps_symmetric, only, pawn_sq, reach,
    toward, within, Squares,
};
use crate::path::route::either_reaches;
use crate::position::board::{Board, Move, Player, WallOrientation};
use crate::util::bits::bit128;
use crate::util::grid::lemma_with_slot;

verus! {

/// A legal move lies on the board.
proof fn lemma_legal_on_board(b: Board, mv: Move)
    requires
        b.wf(),
        legal_moves(b, PawnGenMode::O1Lookup).contains(mv),
    ensures
        move_on_board(mv),
{
    lemma_legal_fits(b, PawnGenMode::O1Lookup, mv);
}

/// The moves among the first `k` that `p` keeps.
pub open spec fn kept(list: Seq<Move>, p: spec_fn(Move) -> bool, k: int) -> Seq<Move>
    decreases k,
{
    if k <= 0 {
        Seq::empty()
    } else if p(list[k - 1]) {
        kept(list, p, k - 1).push(list[k - 1])
    } else {
        kept(list, p, k - 1)
    }
}

/// Keeping drops moves and adds none.
pub proof fn lemma_kept(list: Seq<Move>, p: spec_fn(Move) -> bool, k: int)
    requires
        0 <= k <= list.len(),
    ensures
        kept(list, p, k).len() <= k,
        forall|i: int|
            0 <= i < kept(list, p, k).len() ==> p(#[trigger] kept(list, p, k)[i]) && list.contains(
                kept(list, p, k)[i],
            ),
        forall|j: int|
            0 <= j < k && p(#[trigger] list[j]) ==> kept(list, p, k).contains(list[j]),
    decreases k,
{
    if k > 0 {
        lemma_kept(list, p, k - 1);
        let a = kept(list, p, k - 1);
        let b = kept(list, p, k);
        assert forall|i: int| 0 <= i < b.len() implies p(#[trigger] b[i]) && list.contains(b[i]) by {
            if i < a.len() {
                assert(b[i] == a[i]);
            } else {
                assert(b[i] == list[k - 1]);
            }
        }
        assert forall|j: int| 0 <= j < k && p(#[trigger] list[j]) implies b.contains(list[j]) by {
            if j < k - 1 {
                assert(a.contains(list[j]));
                let i = choose|i: int| 0 <= i < a.len() && a[i] == list[j];
                assert(b[i] == list[j]);
            } else {
                assert(b[a.len() as int] == list[j]);
            }
        }
    }
}

/// What a collection goes by.
pub struct Sieve {
    pub board: Board,
    pub cat: CorridorAttention,
    pub reachable: u128,
    pub gap_zone: u128,
    pub opp_path: Seq<u8>,
    pub opp_path_len: int,
    pub our_dist: int,
    pub opp_dist: int,
    pub tactical_only: bool,
    pub allow_walls: bool,
}

impl Sieve {
    /// A pawn move is kept unless only gains are asked for. A wall is kept
    /// where walls are allowed: one that lengthens the opponent's way, or,
    /// where not only gains are asked for, one that is worth a search.
    pub open spec fn keeps(self, mv: Move) -> bool {
        match mv {
            Move::Pawn { .. } => !self.tactical_only || our_gain_spec(
                self.board,
                mv,
                self.our_dist,
            ) > 0,
            Move::Wall { .. } => self.allow_walls && if self.tactical_only {
                cuts_path(mv, self.opp_path, self.opp_path_len) && opp_gain_spec(
                    self.board,
                    mv,
                    self.opp_dist,
                ) > 0
            } else {
                worth_searching(
                    self.board,
                    mv,
                    self.cat,
                    self.reachable,
                    self.gap_zone,
                    self.opp_path,
                    self.opp_path_len,
                )
            },
        }
    }

    /// The sets are the region of both pawns and the gaps in its border.
    pub open spec fn sets_right(self) -> bool {
        &&& forall|i: int|
            0 <= i < 81 ==> bit128(self.reachable, i) == #[trigger] either_reaches(self.board, i)
        &&& self.allow_walls ==> forall|i: int|
            0 <= i < 128 ==> #[trigger] bit128(self.gap_zone, i) == in_gap_zone(self.reachable, i)
        &&& !self.allow_walls ==> self.gap_zone == 0
    }

    /// The collection: what is kept, or all legal moves if that is nothing and
    /// not only gains are asked for.
    pub open spec fn collection(self) -> Seq<Move> {
        let all = legal_moves(self.board, PawnGenMode::O1Lookup);
        let some = kept(all, |mv: Move| self.keeps(mv), all.len() as int);
        if some.len() == 0 && !self.tactical_only {
            all
        } else {
            some
        }
    }
}

/// Writes the legal moves that a search looks at; their number.
pub fn collect_search_moves(
    board: &Board,
    buf: &mut [Move],
    bfs: &BfsScratch,
    cat: &CorridorAttention,
    opp_path: &[u8; 81],
    opp_path_len: usize,
    our_dist: u8,
    opp_dist: u8,
    tactical_only: bool,
    allow_walls: bool,
) -> (n: usize)
    requires
        board.wf(),
        bfs.wf(),
        opp_path_len <= 81,
        old(buf)@.len() >= 140,
    ensures
        final(buf)@.len() == old(buf)@.len(),
        exists|s: Sieve| #[trigger]
            s.sets_right() && s.board == *board && s.cat == *cat && s.opp_path == opp_path@
                && s.opp_path_len == opp_path_len && s.our_dist == our_dist && s.opp_dist
                == opp_dist && s.tactical_only == tactical_only && s.allow_walls == allow_walls && n
                == s.collection().len() && forall|i: int|
                0 <= i < n ==> #[trigger] final(buf)@[i] == s.collection()[i],
        forall|i: int| n <= i < old(buf)@.len() ==> #[trigger] final(buf)@[i] == old(buf)@[i],
{
    let mut list: [Move; 140] = [Move::Pawn { row: 0, col: 0 }; 140];
    proof {
        lemma_legal_moves_bounded(*board, PawnGenMode::O1Lookup);
    }
    let full: usize = generate_legal_moves_slice(board, &mut list, bfs);
    let ghost all = legal_moves(*board, PawnGenMode::O1Lookup);
    assert forall|i: int| 0 <= i < full implies #[trigger] list[i] == all[i] by {}
    let reachable: u128 = bfs.both_reachable_mask(board);
    let gap_zone: u128 = if allow_walls {
        gap_play_zone_mask(reachable)
    } else {
        0
    };
    let ghost s = Sieve {
        board: *board,
        cat: *cat,
        reachable,
        gap_zone,
        opp_path: opp_path@,
        opp_path_len: opp_path_len as int,
        our_dist: our_dist as int,
        opp_dist: opp_dist as int,
        tactical_only,
        allow_walls,
    };
    let ghost p = |mv: Move| s.keeps(mv);
    assert(s.sets_right());
    let mut n: usize = 0;
    let mut i: usize = 0;
    while i < full
        invariant
            i <= full <= 140,
            n <= i,
            board.wf(),
            opp_path_len <= 81,
            buf@.len() == old(buf)@.len(),
            buf@.len() >= 140,
            all == legal_moves(*board, PawnGenMode::O1Lookup),
            full == all.len(),
            forall|k: int| 0 <= k < full ==> #[trigger] list[k] == all[k],
            p == (|mv: Move| s.keeps(mv)),
            s.board == *board,
            s.cat == *cat,
            s.reachable == reachable,
            s.gap_zone == gap_zone,
            s.opp_path == opp_path@,
            s.opp_path_len == opp_path_len,
            s.our_dist == our_dist,
            s.opp_dist == opp_dist,
            s.tactical_only == tactical_only,
            s.allow_walls == allow_walls,
            n == kept(all, p, i as int).len(),
            forall|k: int| 0 <= k < n ==> #[trigger] buf@[k] == kept(all, p, i as int)[k],
            forall|k: int| n <= k < buf@.len() ==> #[trigger] buf@[k] == old(buf)@[k],
        decreases full - i,
    {
        let mv: Move = list[i];
        proof {
            assert(all[i as int] == mv);
            assert(all.contains(mv));
            lemma_legal_on_board(*board, mv);
        }
        let keep: bool = match mv {
            Move::Pawn { .. } => !tactical_only || our_path_gain(board, mv, our_dist, bfs) > 0,
            Move::Wall { .. } => allow_walls && if tactical_only {
                wall_intersects_path(mv, opp_path, opp_path_len) && opp_path_gain(
                    board,
                    mv,
                    opp_dist,
                    bfs,
                ) > 0
            } else {
                wall_should_search(
                    mv,
                    cat,
                    reachable,
                    gap_zone,
                    board,
                    our_dist,
                    opp_dist,
                    opp_path,
                    opp_path_len,
                    bfs,
                )
            },
        };
        assert(keep == s.keeps(mv));
        if keep {
            buf[n] = mv;
            n = n + 1;
        }
        i = i + 1;
    }
    assert(n == kept(all, p, all.len() as int).len());
    if n == 0 && !tactical_only {
        assert(s.collection() == all);
        let mut k: usize = 0;
        while k < full
            invariant
                k <= full <= 140,
                full == all.len(),
                buf@.len() == old(buf)@.len(),
                buf@.len() >= 140,
                forall|j: int| 0 <= j < full ==> #[trigger] list[j] == all[j],
                forall|j: int| 0 <= j < k ==> #[trigger] buf@[j] == all[j],
                forall|j: int| k <= j < buf@.len() ==> #[trigger] buf@[j] == old(buf)@[j],
            decreases full - k,
        {
            buf[k] = list[k];
            k = k + 1;
        }
        return full;
    }
    n
}

/// The collection holds legal moves only, and is not empty where there are
/// legal moves and not only gains are asked for.
pub proof fn lemma_collection_legal(s: Sieve)
    ensures
        forall|i: int|
            0 <= i < s.collection().len() ==> legal_moves(s.board, PawnGenMode::O1Lookup).contains(
                #[trigger] s.collection()[i],
            ),
        !s.tactical_only && legal_moves(s.board, PawnGenMode::O1Lookup).len() > 0
            ==> s.collection().len() > 0,
{
    let all = legal_moves(s.board, PawnGenMode::O1Lookup);
    lemma_kept(all, |mv: Move| s.keeps(mv), all.len() as int);
    assert forall|i: int| 0 <= i < all.len() implies all.contains(#[trigger] all[i]) by {}
}

// --- pawn heats ---

/// The hottest pawn move among the first `k`.
pub open spec fn hottest_pawn(list: Seq<Move>, cat: CorridorAttention, k: int) -> int
    decreases k,
{
    if k <= 0 {
        0
    } else {
        match list[k - 1] {
            Move::Pawn { row, col } => max_int(
                hottest_pawn(list, cat, k - 1),
                cat.square_heat[row * 9 + col] as int,
            ),
            Move::Wall { .. } => hottest_pawn(list, cat, k - 1),
        }
    }
}

/// The hottest pawn move that the player would have on turn.
pub open spec fn best_heat_of(b: Board, player: Player, cat: CorridorAttention) -> int {
    let list = legal_moves((Board { side_to_move: player, ..b }), PawnGenMode::O1Lookup);
    hottest_pawn(list, cat, list.len() as int)
}

fn best_heat(board: &Board, player: Player, cat: &CorridorAttention, bfs: &BfsScratch) -> (r: u16)
    requires
        board.wf(),
        bfs.wf(),
    ensures
        r == best_heat_of(*board, player, *cat),
{
    let mut b: Board = *board;
    b.side_to_move = player;
    let mut list: [Move; 140] = [Move::Pawn { row: 0, col: 0 }; 140];
    proof {
        lemma_legal_moves_bounded(b, PawnGenMode::O1Lookup);
    }
    let n: usize = generate_legal_moves_slice(&b, &mut list, bfs);
    let ghost all = legal_moves(b, PawnGenMode::O1Lookup);
    assert forall|i: int| 0 <= i < n implies #[trigger] list[i] == all[i] by {}
    let mut best: u16 = 0;
    let mut i: usize = 0;
    while i < n
        invariant
            i <= n <= 140,
            n == all.len(),
            b.wf(),
            all == legal_moves(b, PawnGenMode::O1Lookup),
            forall|k: int| 0 <= k < n ==> #[trigger] list[k] == all[k],
            best == hottest_pawn(all, *cat, i as int),
        decreases n - i,
    {
        let mv: Move = list[i];
        proof {
            assert(all[i as int] == mv);
            assert(all.contains(mv));
            lemma_legal_on_board(b, mv);
        }
        if let Move::Pawn { row, col } = mv {
            let h: u16 = cat.square_heat(row, col);
            if h > best {
                best = h;
            }
        }
        i = i + 1;
    }
    best
}

/// The hottest pawn move of each player.
pub fn best_pawn_cat_heats(board: &Board, cat: &CorridorAttention, bfs: &BfsScratch) -> (r: (u16, u16))
    requires
        board.wf(),
        bfs.wf(),
    ensures
        r.0 == best_heat_of(*board, Player::One, *cat),
        r.1 == best_heat_of(*board, Player::Two, *cat),
{
    (best_heat(board, Player::One, cat, bfs), best_heat(board, Player::Two, cat, bfs))
}

// --- dead walls ---

/// A step that a wall cuts lies between two squares that it touches.
proof fn lemma_cut_touches(b: Board, r: int, c: int, o: WallOrientation, sq: int, d: int)
    requires
        0 <= r < 8,
        0 <= c < 8,
    ensures
        board_steps(b.with_wall(r, c, o, true))(sq, d) ==> board_steps(b)(sq, d),
        board_steps(b)(sq, d) && !board_steps(b.with_wall(r, c, o, true))(sq, d) ==> touched(
            r,
            c,
            sq,
        ) && touched(r, c, toward(sq, d)),
{
    let h = b.horizontal_walls;
    let v = b.vertical_walls;
    let x = sq / 9;
    let y = sq % 9;
    assert(sq == x * 9 + y);
    match o {
        WallOrientation::Horizontal => {
            lemma_with_slot(h, r, c, true, x, y);
            lemma_with_slot(h, r, c, true, x, y - 1);
            lemma_with_slot(h, r, c, true, x - 1, y);
            lemma_with_slot(h, r, c, true, x - 1, y - 1);
        },
        WallOrientation::Vertical => {
            lemma_with_slot(v, r, c, true, x, y);
            lemma_with_slot(v, r, c, true, x - 1, y);
            lemma_with_slot(v, r, c, true, x, y - 1);
            lemma_with_slot(v, r, c, true, x - 1, y - 1);
        },
    }
}

/// From a connected square one step away is connected, too.
proof fn lemma_region_grows(b: Board, at: int, from: int, d: int)
    requires
        board_steps(b)(from, d),
        reach(board_steps(b), only(at), toward(from, d)),
    ensures
        reach(board_steps(b), only(at), from),
{
    let st = board_steps(b);
    let sq = toward(from, d);
    lemma_wall_steps_stay(b.horizontal_walls, b.vertical_walls, from, d);
    lemma_wall_steps_symmetric(b.horizontal_walls, b.vertical_walls, from, d);
    let n = choose|n: nat| within(st, only(at), sq, n);
    assert(st(sq, back(d)) && toward(sq, back(d)) == from);
    assert(within(st, only(at), from, n + 1)) by {
        assert(((n + 1) - 1) as nat == n);
        assert(sq == from + 9 || sq == from - 9 || sq == from + 1 || sq == from - 1);
    }
}

/// In the region of a pawn a wall that touches none of it changes no distance.
proof fn lemma_dead_within(
    b: Board,
    r: int,
    c: int,
    o: WallOrientation,
    at: int,
    src: Squares,
    sq: int,
    n: nat,
)
    requires
        0 <= r < 8,
        0 <= c < 8,
        reach(board_steps(b), only(at), sq),
        forall|i: int| #[trigger] touched(r, c, i) ==> !reach(board_steps(b), only(at), i),
    ensures
        within(board_steps(b), src, sq, n) == within(
            board_steps(b.with_wall(r, c, o, true)),
            src,
            sq,
            n,
        ),
    decreases n, 0nat,
{
    if n > 0 {
        let m = (n - 1) as nat;
        lemma_dead_within(b, r, c, o, at, src, sq, m);
        lemma_dead_step(b, r, c, o, at, src, sq + 9, 0, m);
        lemma_dead_step(b, r, c, o, at, src, sq - 9, 1, m);
        lemma_dead_step(b, r, c, o, at, src, sq + 1, 2, m);
        lemma_dead_step(b, r, c, o, at, src, sq - 1, 3, m);
    }
}

proof fn lemma_dead_step(
    b: Board,
    r: int,
    c: int,
    o: WallOrientation,
    at: int,
    src: Squares,
    from: int,
    d: int,
    m: nat,
)
    requires
        0 <= r < 8,
        0 <= c < 8,
        0 <= d < 4,
        reach(board_steps(b), only(at), toward(from, d)),
        forall|i: int| #[trigger] touched(r, c, i) ==> !reach(board_steps(b), only(at), i),
    ensures
        (board_steps(b)(from, d) && within(board_steps(b), src, from, m)) == (board_steps(
            b.with_wall(r, c, o, true),
        )(from, d) && within(board_steps(b.with_wall(r, c, o, true)), src, from, m)),
    decreases m, 1nat,
{
    lemma_cut_touches(b, r, c, o, from, d);
    if board_steps(b)(from, d) {
        lemma_region_grows(b, at, from, d);
        lemma_dead_within(b, r, c, o, at, src, from, m);
    }
}

/// A wall in a dead zone blocks no way: it leaves both players connected as
/// they were and as far as they were.
pub proof fn lemma_dead_wall_idle(b: Board, mv: Move, reachable: u128, player: Player)
    requires
        b.wf(),
        mv matches Move::Wall { row, col, .. } ==> row < 8 && col < 8,
        forall|i: int| 0 <= i < 81 ==> bit128(reachable, i) == #[trigger] either_reaches(b, i),
        dead_zone(mv, reachable),
    ensures
        has_path(crate::cat::prune::walled(b, mv), player) == has_path(b, player),
        goal_dist(crate::cat::prune::walled(b, mv), player) == goal_dist(b, player),
{
    match mv {
        Move::Pawn { .. } => {},
        Move::Wall { row, col, orientation } => {
            let r = row as int;
            let c = col as int;
            let at = pawn_sq(b, player);
            let st = board_steps(b);
            let b2 = b.with_wall(r, c, orientation, true);
            let st2 = board_steps(b2);
            let src = goal_squares(player);
            assert(within(st, only(at), at, 0));
            assert(reach(st, only(at), at));
            assert forall|i: int| #[trigger] touched(r, c, i) implies !reach(st, only(at), i) by {
                assert(0 <= i < 81);
                assert(!bit128(reachable, i));
                assert(!either_reaches(b, i));
            }
            assert forall|n: nat| #[trigger] within(st, src, at, n) == within(st2, src, at, n) by {
                lemma_dead_within(b, r, c, orientation, at, src, at, n);
            }
            if reach(st, src, at) {
                lemma_dist_reach(st, src, at);
                let k = dist(st, src, at) as nat;
                assert(within(st2, src, at, k));
                if k > 0 {
                    assert(within(st, src, at, (k - 1) as nat) == within(
                        st2,
                        src,
                        at,
                        (k - 1) as nat,
                    ));
                }
                assert(is_dist(st2, src, at, k));
                lemma_dist_is(st2, src, at, k);
            } else if reach(st2, src, at) {
                let n = choose|n: nat| within(st2, src, at, n);
                assert(within(st, src, at, n));
            }
        },
    }
}

} // verus!
