//! In which order moves are tried.

use vstd::prelude::*;

use crate::cat::attention::CorridorAttention;
use crate::cat::constants::CAT_COLD_CM;
use crate::cat::moves::{
    cat_heat_ref_max, cat_heat_refs, hottest, move_corridor_attention, move_heat, move_on_board, ref_max,
    refs_of, CatHeatRefs,
};
use crate::cat::prune::{
    cuts_path, dist_or_penalty, gain, min_wall_net_race, our_gain_spec, our_path_gain,
    wall_intersects_path, wall_race_swing, walled, TEMPO_PENALTY,
};
use crate::movegen::legal::MAX_LEGAL_MOVES;
use crate::path::bfs::BfsScratch;
use crate::position::board::{Board, Move};

verus! {

/// Moves known from elsewhere.
#[derive(Clone, Copy)]
pub struct OrderExtras {
    pub pv_move: Option<Move>,
    pub killers: [Option<Move>; 2],
}

impl Default for OrderExtras {
    fn default() -> (r: Self)
        ensures
            r.pv_move is None,
            r.killers[0] is None,
            r.killers[1] is None,
    {
        OrderExtras { pv_move: None, killers: [None, None] }
    }
}

/// A move from theory.
#[derive(Clone, Copy)]
pub struct BookHint {
    pub mv: Move,
    pub stm_bias: i16,
    pub priority: u16,
}

/// Division that rounds toward zero.
pub open spec fn quarter(x: int) -> int {
    if x < 0 {
        -((-x) / 4)
    } else {
        x / 4
    }
}

/// The boost of a heat stays below every tactical score.
pub open spec fn boosts<F: Fn(i32, u16, u16) -> i32>(boost: F) -> bool {
    &&& forall|c: i32, m: u16, z: u16| #[trigger] call_requires(boost, (c, m, z))
    &&& forall|c: i32, m: u16, z: u16, r: i32| #[trigger]
        call_ensures(boost, (c, m, z), r) ==> 0 <= r <= 16_000
}

/// What a score rests on.
pub struct OrderScene {
    pub board: Board,
    pub tt_best: Option<Move>,
    pub book_hint: Option<BookHint>,
    pub our_dist: int,
    pub opp_dist: int,
    pub opp_path: Seq<u8>,
    pub opp_path_len: int,
    pub cat: CorridorAttention,
}

impl OrderScene {
    /// The table's move.
    pub open spec fn from_table(self, mv: Move) -> bool {
        self.tt_best == Some(mv)
    }

    /// The book's move.
    pub open spec fn from_book(self, mv: Move) -> bool {
        self.book_hint matches Some(h) && h.mv == mv
    }

    pub open spec fn behind(self) -> bool {
        self.our_dist > self.opp_dist
    }

    /// What a wall gains in the race.
    pub open spec fn net(self, mv: Move) -> int {
        let b = walled(self.board, mv);
        gain(dist_or_penalty(b, self.board.side_to_move.opposite_spec()), self.opp_dist) - gain(
            dist_or_penalty(b, self.board.side_to_move),
            self.our_dist,
        )
    }

    /// A wall that cuts the opponent's path and gains enough.
    pub open spec fn pays(self, mv: Move) -> bool {
        cuts_path(mv, self.opp_path, self.opp_path_len) && self.net(mv) >= (if self.our_dist
            == self.opp_dist {
            2int
        } else {
            1int
        })
    }

    pub open spec fn heat(self, mv: Move) -> int {
        move_heat(self.board, mv, self.cat)
    }

    pub open spec fn gained(self, mv: Move) -> int {
        our_gain_spec(self.board, mv, self.our_dist)
    }

    /// A pawn move that shortens the way but leaves the race lost.
    pub open spec fn too_slow(self, mv: Move) -> bool {
        self.behind() && self.gained(mv) < 2 && self.our_dist - 1 > self.opp_dist
    }

    /// The score where no boost enters it.
    pub open spec fn plain_score(self, mv: Move) -> Option<int> {
        if self.from_table(mv) {
            Some(10_000)
        } else if self.from_book(mv) {
            Some(9_000 + self.book_hint->0.priority + quarter(self.book_hint->0.stm_bias as int))
        } else if mv is Wall {
            if !self.pays(mv) {
                None
            } else if self.behind() || self.opp_dist <= 4 {
                Some(15_000 + self.net(mv) * 120 + self.heat(mv) / 8)
            } else {
                Some(12_000 + self.net(mv) * 80 + self.heat(mv) / 16)
            }
        } else if self.gained(mv) > 0 {
            if self.our_dist >= self.opp_dist {
                if self.too_slow(mv) {
                    Some(800 + self.gained(mv) * 40)
                } else {
                    Some(14_000 + self.gained(mv) * 100)
                }
            } else {
                Some(1000 + self.gained(mv) * 100)
            }
        } else {
            None
        }
    }

    /// `r` is the score: the plain one, or the boost of the heat on the base of
    /// quiet moves.
    pub open spec fn score_is<F: Fn(i32, u16, u16) -> i32>(
        self,
        mv: Move,
        cat_max: u16,
        cold_cm: u16,
        boost: F,
        r: int,
    ) -> bool {
        match self.plain_score(mv) {
            Some(x) => r == x,
            None => exists|b: i32| #[trigger]
                call_ensures(boost, (self.heat(mv) as i32, cat_max, cold_cm), b) && r == b + (
                if mv is Wall {
                    -20_000
                } else {
                    TEMPO_PENALTY as int
                }),
        }
    }
}

fn same_move(a: Option<Move>, b: Move) -> (r: bool)
    ensures
        r == (a == Some(b)),
{
    match a {
        None => false,
        Some(m) => m == b,
    }
}

fn quarter_of(x: i16) -> (r: i32)
    ensures
        r == quarter(x as int),
        -8192 <= r <= 8191,
{
    if x < 0 {
        -(-(x as i32) / 4)
    } else {
        x as i32 / 4
    }
}

/// The score of a move, before extras and history.
pub fn move_order_score<F: Fn(i32, u16, u16) -> i32>(
    board: &Board,
    mv: Move,
    tt_best: Option<Move>,
    book_hint: Option<BookHint>,
    our_dist: u8,
    opp_dist: u8,
    opp_path: &[u8],
    opp_path_len: usize,
    bfs: &BfsScratch,
    cat: &CorridorAttention,
    cat_max: u16,
    cold_cm: u16,
    boost: &F,
) -> (r: i32)
    requires
        board.wf(),
        move_on_board(mv),
        opp_path_len <= opp_path@.len(),
        boosts(*boost),
    ensures
        (OrderScene {
            board: *board,
            tt_best,
            book_hint,
            our_dist: our_dist as int,
            opp_dist: opp_dist as int,
            opp_path: opp_path@,
            opp_path_len: opp_path_len as int,
            cat: *cat,
        }).score_is(mv, cat_max, cold_cm, *boost, r as int),
        -30_000 <= r <= 100_000,
{
    let ghost scene = OrderScene {
        board: *board,
        tt_best,
        book_hint,
        our_dist: our_dist as int,
        opp_dist: opp_dist as int,
        opp_path: opp_path@,
        opp_path_len: opp_path_len as int,
        cat: *cat,
    };
    if same_move(tt_best, mv) {
        return 10_000;
    }
    if let Some(hint) = book_hint {
        if hint.mv == mv {
            return 9_000 + hint.priority as i32 + quarter_of(hint.stm_bias);
        }
    }
    let behind: bool = our_dist > opp_dist;
    let is_wall: bool = match mv {
        Move::Wall { .. } => true,
        Move::Pawn { .. } => false,
    };
    if is_wall {
        let attn: i32 = move_corridor_attention(board, mv, cat);
        if !wall_intersects_path(mv, opp_path, opp_path_len) {
            assert(scene.plain_score(mv) is None);
            return -20_000 + boost(attn, cat_max, cold_cm);
        }
        let swing: (i32, i32) = wall_race_swing(board, mv, our_dist, opp_dist, bfs);
        let net: i32 = swing.0 - swing.1;
        assert(net == scene.net(mv));
        if net < min_wall_net_race(our_dist, opp_dist) {
            assert(scene.plain_score(mv) is None);
            return -20_000 + boost(attn, cat_max, cold_cm);
        }
        assert(scene.pays(mv));
        if behind || opp_dist <= 4 {
            return 15_000 + net * 120 + attn / 8;
        }
        return 12_000 + net * 80 + attn / 16;
    }
    let won: i32 = our_path_gain(board, mv, our_dist, bfs);
    assert(won == scene.gained(mv));
    if our_dist >= opp_dist && won > 0 {
        let closes: bool = won >= 2 || our_dist.saturating_sub(1) <= opp_dist;
        if behind && !closes {
            return 800 + won * 40;
        }
        return 14_000 + won * 100;
    }
    if won > 0 {
        1000 + won * 100
    } else {
        let attn: i32 = move_corridor_attention(board, mv, cat);
        assert(scene.plain_score(mv) is None);
        TEMPO_PENALTY + boost(attn, cat_max, cold_cm)
    }
}

/// The score with what is known from elsewhere: at least 9500 for the move of
/// the line, at least 8500 for a killer. The table's move keeps its score.
pub open spec fn with_extras(base: int, mv: Move, tt_best: Option<Move>, x: OrderExtras) -> int {
    if tt_best == Some(mv) {
        base
    } else if x.pv_move == Some(mv) && base < 9_500 {
        9_500
    } else if (x.killers[0] == Some(mv) || x.killers[1] == Some(mv)) && base < 8_500 {
        8_500
    } else {
        base
    }
}

/// The score with what is known from elsewhere.
pub fn apply_order_extras(base: i32, mv: Move, tt_best: Option<Move>, extras: &OrderExtras) -> (r:
    i32)
    ensures
        r == with_extras(base as int, mv, tt_best, *extras),
{
    if same_move(tt_best, mv) {
        return base;
    }
    let mut score: i32 = base;
    if same_move(extras.pv_move, mv) && score < 9_500 {
        score = 9_500;
    }
    if same_move(extras.killers[0], mv) && score < 8_500 {
        score = 8_500;
    }
    if same_move(extras.killers[1], mv) && score < 8_500 {
        score = 8_500;
    }
    score
}

/// Scores this close count as equal.
pub const ORDER_SCORE_TIE_BAND: i32 = 150;

pub open spec fn column(mv: Move) -> u8 {
    match mv {
        Move::Pawn { col, .. } => col,
        Move::Wall { col, .. } => col,
    }
}

/// Left of the middle file, on it, or right of it.
pub open spec fn flank(mv: Move) -> int {
    if column(mv) < 4 {
        0
    } else if column(mv) > 4 {
        2
    } else {
        1
    }
}

fn move_col(mv: Move) -> (r: u8)
    ensures
        r == column(mv),
{
    match mv {
        Move::Pawn { col, .. } => col,
        Move::Wall { col, .. } => col,
    }
}

/// The move with its column counted from the other side.
pub open spec fn mirrored(mv: Move) -> Move {
    match mv {
        Move::Pawn { row, col } => Move::Pawn { row, col: (8 - col) as u8 },
        Move::Wall { row, col, orientation } => Move::Wall {
            row,
            col: (8 - col) as u8,
            orientation,
        },
    }
}

/// Mirrors a move across the middle file.
pub fn mirror_move(mv: Move) -> (r: Move)
    requires
        column(mv) <= 8,
    ensures
        r == mirrored(mv),
{
    match mv {
        Move::Pawn { row, col } => Move::Pawn { row, col: 8 - col },
        Move::Wall { row, col, orientation } => Move::Wall { row, col: 8 - col, orientation },
    }
}

/// Mirroring twice gives the move back.
pub proof fn lemma_mirror_twice(mv: Move)
    requires
        column(mv) <= 8,
    ensures
        mirrored(mirrored(mv)) == mv,
{
}

/// A move and its score.
pub type Scored = (Move, i32);

/// Where a scored move goes among sorted ones: behind all that are no worse.
pub open spec fn place_of(s: Seq<Scored>, x: Scored) -> int
    decreases s.len(),
{
    if s.len() == 0 || s.last().1 >= x.1 {
        s.len() as int
    } else {
        place_of(s.drop_last(), x)
    }
}

/// The first `n`, best first, equals in their order.
pub open spec fn ranked(s: Seq<Scored>, n: int) -> Seq<Scored>
    decreases n,
{
    if n <= 0 {
        Seq::empty()
    } else {
        ranked(s, n - 1).insert(place_of(ranked(s, n - 1), s[n - 1]), s[n - 1])
    }
}

proof fn lemma_place(s: Seq<Scored>, x: Scored)
    ensures
        0 <= place_of(s, x) <= s.len(),
        place_of(s, x) > 0 ==> s[place_of(s, x) - 1].1 >= x.1,
        forall|i: int| place_of(s, x) <= i < s.len() ==> (#[trigger] s[i]).1 < x.1,
    decreases s.len(),
{
    if s.len() != 0 && s.last().1 < x.1 {
        lemma_place(s.drop_last(), x);
        let p = place_of(s.drop_last(), x);
        assert forall|i: int| p <= i < s.len() implies (#[trigger] s[i]).1 < x.1 by {
            if i < s.len() - 1 {
                assert(s.drop_last()[i] == s[i]);
            }
        }
    }
}

/// Descending scores.
pub open spec fn descending(s: Seq<Scored>) -> bool {
    forall|i: int, j: int| 0 <= i <= j < s.len() ==> (#[trigger] s[i]).1 >= (#[trigger] s[j]).1
}

/// Ranking keeps every move and puts the best first.
pub proof fn lemma_ranked(s: Seq<Scored>, n: int)
    requires
        0 <= n <= s.len(),
    ensures
        ranked(s, n).len() == n,
        descending(ranked(s, n)),
        ranked(s, n).to_multiset() == s.subrange(0, n).to_multiset(),
    decreases n,
{
    broadcast use vstd::seq_lib::group_to_multiset_ensures;

    if n == 0 {
        assert(s.subrange(0, 0) =~= Seq::<Scored>::empty());
    } else {
        lemma_ranked(s, n - 1);
        let r = ranked(s, n - 1);
        let x = s[n - 1];
        let p = place_of(r, x);
        lemma_place(r, x);
        let q = r.insert(p, x);
        assert(s.subrange(0, n) =~= s.subrange(0, n - 1).push(x));
        assert forall|i: int, j: int| 0 <= i <= j < q.len() implies (#[trigger] q[i]).1 >= (
        #[trigger] q[j]).1 by {
            let a = if i < p {
                i
            } else {
                i - 1
            };
            let b = if j < p {
                j
            } else {
                j - 1
            };
            if i == p && j > p {
                assert(q[j] == r[j - 1]);
            } else if j == p && i < p {
                assert(q[i] == r[i]);
                assert(r[i].1 >= r[p - 1].1);
            } else if i != p && j != p {
                assert(q[i] == r[a]);
                assert(q[j] == r[b]);
            }
        }
        assert(q.to_multiset() =~= r.to_multiset().insert(x));
    }
}

/// The end of a run of scores within the band below `top`.
pub open spec fn band_end(s: Seq<Scored>, k: int, top: int) -> int
    decreases s.len() - k,
{
    if k >= s.len() || s[k].1 < top - ORDER_SCORE_TIE_BAND {
        k
    } else {
        band_end(s, k + 1, top)
    }
}

/// Those of a run on one flank, in their order.
pub open spec fn on_flank(s: Seq<Scored>, lo: int, hi: int, side: int) -> Seq<Scored>
    decreases hi - lo,
{
    if hi <= lo {
        Seq::empty()
    } else if flank(s[hi - 1].0) == side {
        on_flank(s, lo, hi - 1, side).push(s[hi - 1])
    } else {
        on_flank(s, lo, hi - 1, side)
    }
}

/// The first `k` of both, by turns.
pub open spec fn by_turns(a: Seq<Scored>, b: Seq<Scored>, k: int) -> Seq<Scored>
    decreases k,
{
    if k <= 0 {
        Seq::empty()
    } else {
        let head = by_turns(a, b, k - 1);
        let with_a = if k - 1 < a.len() {
            head.push(a[k - 1])
        } else {
            head
        };
        if k - 1 < b.len() {
            with_a.push(b[k - 1])
        } else {
            with_a
        }
    }
}

/// The longer length.
pub open spec fn longer(a: Seq<Scored>, b: Seq<Scored>) -> int {
    if a.len() < b.len() {
        b.len() as int
    } else {
        a.len() as int
    }
}

/// A run with the flanks by turns and the middle last.
pub open spec fn spread(s: Seq<Scored>, lo: int, hi: int) -> Seq<Scored> {
    let left = on_flank(s, lo, hi, 0);
    let right = on_flank(s, lo, hi, 2);
    by_turns(left, right, longer(left, right)) + on_flank(s, lo, hi, 1)
}

/// Every run of scores that count as equal, spread.
pub open spec fn rebalanced(s: Seq<Scored>, start: int) -> Seq<Scored>
    decreases s.len() - start,
{
    if start < 0 || start >= s.len() {
        Seq::empty()
    } else {
        let end = band_end(s, start + 1, s[start].1 as int);
        if start < end <= s.len() {
            spread(s, start, end) + rebalanced(s, end)
        } else {
            Seq::empty()
        }
    }
}

proof fn lemma_band_end(s: Seq<Scored>, k: int, top: int)
    requires
        0 <= k <= s.len(),
    ensures
        k <= band_end(s, k, top) <= s.len(),
    decreases s.len() - k,
{
    if k < s.len() && s[k].1 >= top - ORDER_SCORE_TIE_BAND {
        lemma_band_end(s, k + 1, top);
    }
}

proof fn lemma_by_turns(a: Seq<Scored>, b: Seq<Scored>, k: int)
    requires
        k >= 0,
    ensures
        by_turns(a, b, k).to_multiset() == first(a, k).to_multiset().add(first(b, k).to_multiset()),
    decreases k,
{
    broadcast use vstd::seq_lib::group_to_multiset_ensures;

    if k == 0 {
        assert(first(a, 0) =~= Seq::<Scored>::empty());
        assert(first(b, 0) =~= Seq::<Scored>::empty());
        assert(by_turns(a, b, 0).to_multiset() =~= first(a, 0).to_multiset().add(
            first(b, 0).to_multiset(),
        ));
    } else {
        lemma_by_turns(a, b, k - 1);
        let head = by_turns(a, b, k - 1);
        if k - 1 < a.len() {
            assert(first(a, k) =~= first(a, k - 1).push(a[k - 1]));
        } else {
            assert(first(a, k) =~= first(a, k - 1));
        }
        if k - 1 < b.len() {
            assert(first(b, k) =~= first(b, k - 1).push(b[k - 1]));
        } else {
            assert(first(b, k) =~= first(b, k - 1));
        }
        assert(by_turns(a, b, k).to_multiset() =~= first(a, k).to_multiset().add(
            first(b, k).to_multiset(),
        ));
    }
}

/// The first `k`, or all.
spec fn first(s: Seq<Scored>, k: int) -> Seq<Scored> {
    if k < s.len() {
        s.subrange(0, k)
    } else {
        s
    }
}

proof fn lemma_flanks(s: Seq<Scored>, lo: int, hi: int)
    requires
        0 <= lo <= hi <= s.len(),
    ensures
        s.subrange(lo, hi).to_multiset() == on_flank(s, lo, hi, 0).to_multiset().add(
            on_flank(s, lo, hi, 2).to_multiset(),
        ).add(on_flank(s, lo, hi, 1).to_multiset()),
    decreases hi - lo,
{
    broadcast use vstd::seq_lib::group_to_multiset_ensures;

    let whole = on_flank(s, lo, hi, 0).to_multiset().add(
        on_flank(s, lo, hi, 2).to_multiset(),
    ).add(on_flank(s, lo, hi, 1).to_multiset());
    if lo == hi {
        assert(s.subrange(lo, hi) =~= Seq::<Scored>::empty());
        assert(s.subrange(lo, hi).to_multiset() =~= whole);
    } else {
        lemma_flanks(s, lo, hi - 1);
        assert(s.subrange(lo, hi) =~= s.subrange(lo, hi - 1).push(s[hi - 1]));
        assert(s.subrange(lo, hi).to_multiset() =~= whole);
    }
}

proof fn lemma_spread(s: Seq<Scored>, lo: int, hi: int)
    requires
        0 <= lo <= hi <= s.len(),
    ensures
        spread(s, lo, hi).to_multiset() == s.subrange(lo, hi).to_multiset(),
{
    broadcast use vstd::seq_lib::group_to_multiset_ensures;

    let left = on_flank(s, lo, hi, 0);
    let right = on_flank(s, lo, hi, 2);
    let k = longer(left, right);
    lemma_flanks(s, lo, hi);
    lemma_by_turns(left, right, k);
    assert(first(left, k) =~= left);
    assert(first(right, k) =~= right);
    vstd::seq_lib::lemma_multiset_commutative(by_turns(left, right, k), on_flank(s, lo, hi, 1));
}

/// Rebalancing keeps every move.
pub proof fn lemma_rebalanced(s: Seq<Scored>, start: int)
    requires
        0 <= start <= s.len(),
    ensures
        rebalanced(s, start).to_multiset() == s.subrange(start, s.len() as int).to_multiset(),
        rebalanced(s, start).len() == s.len() - start,
    decreases s.len() - start,
{
    broadcast use vstd::seq_lib::group_to_multiset_ensures;

    if start == s.len() {
        assert(s.subrange(start, s.len() as int) =~= Seq::<Scored>::empty());
    } else {
        let end = band_end(s, start + 1, s[start].1 as int);
        lemma_band_end(s, start + 1, s[start].1 as int);
        lemma_spread(s, start, end);
        lemma_rebalanced(s, end);
        let a = s.subrange(start, end);
        let b = s.subrange(end, s.len() as int);
        assert(s.subrange(start, s.len() as int) =~= a + b);
        vstd::seq_lib::lemma_multiset_commutative(a, b);
        vstd::seq_lib::lemma_multiset_commutative(spread(s, start, end), rebalanced(s, end));
        assert(spread(s, start, end).len() == a.len()) by {
            assert(spread(s, start, end).to_multiset().len() == a.to_multiset().len());
        }
    }
}

/// The scores of a run are within the band.
proof fn lemma_band_holds(s: Seq<Scored>, k: int, top: int, i: int)
    requires
        0 <= k <= i < band_end(s, k, top),
    ensures
        i < s.len(),
        s[i].1 >= top - ORDER_SCORE_TIE_BAND,
    decreases s.len() - k,
{
    if k < i {
        lemma_band_holds(s, k + 1, top, i);
    }
}

/// What has the same members has every member of the other.
proof fn lemma_member_of(a: Seq<Scored>, b: Seq<Scored>, i: int) -> (j: int)
    requires
        a.to_multiset() == b.to_multiset(),
        0 <= i < a.len(),
    ensures
        0 <= j < b.len(),
        b[j] == a[i],
{
    broadcast use vstd::seq_lib::group_to_multiset_ensures;

    assert(a.contains(a[i]));
    assert(a.to_multiset().count(a[i]) > 0);
    assert(b.contains(a[i]));
    choose|j: int| 0 <= j < b.len() && b[j] == a[i]
}

/// Rebalancing moves no score up by more than the band: whatever comes later
/// scores at most the band more.
pub proof fn lemma_rebalanced_band(s: Seq<Scored>, start: int)
    requires
        0 <= start <= s.len(),
        descending(s),
    ensures
        forall|i: int, j: int|
            0 <= i < j < rebalanced(s, start).len() ==> (#[trigger] rebalanced(s, start)[j]).1
                <= (#[trigger] rebalanced(s, start)[i]).1 + ORDER_SCORE_TIE_BAND,
        forall|i: int|
            0 <= i < rebalanced(s, start).len() ==> (#[trigger] rebalanced(s, start)[i]).1
                <= s[start].1,
    decreases s.len() - start,
{
    if start < s.len() {
        let top = s[start].1 as int;
        let end = band_end(s, start + 1, top);
        lemma_band_end(s, start + 1, top);
        lemma_spread(s, start, end);
        lemma_rebalanced(s, start);
        lemma_rebalanced(s, end);
        lemma_rebalanced_band(s, end);
        let run = spread(s, start, end);
        let rest = rebalanced(s, end);
        let all = rebalanced(s, start);
        assert(all == run + rest);
        assert forall|i: int| 0 <= i < run.len() implies top - ORDER_SCORE_TIE_BAND
            <= (#[trigger] run[i]).1 <= top by {
            let j = lemma_member_of(run, s.subrange(start, end), i);
            assert(s.subrange(start, end)[j] == s[start + j]);
            if j > 0 {
                lemma_band_holds(s, start + 1, top, start + j);
                assert(s[start].1 >= s[start + j].1);
            }
        }
        assert forall|i: int| 0 <= i < rest.len() implies (#[trigger] rest[i]).1 <= top by {
            assert(end < s.len());
            assert(s[start].1 >= s[end].1);
        }
        assert forall|i: int, j: int| 0 <= i < j < all.len() implies (#[trigger] all[j]).1 <= (
        #[trigger] all[i]).1 + ORDER_SCORE_TIE_BAND by {
            if i < run.len() {
                assert(all[i] == run[i]);
                if j < run.len() {
                    assert(all[j] == run[j]);
                } else {
                    assert(all[j] == rest[j - run.len()]);
                }
            } else {
                assert(all[i] == rest[i - run.len()]);
                assert(all[j] == rest[j - run.len()]);
            }
        }
        assert forall|i: int| 0 <= i < all.len() implies (#[trigger] all[i]).1 <= s[start].1 by {
            if i < run.len() {
                assert(all[i] == run[i]);
            } else {
                assert(all[i] == rest[i - run.len()]);
            }
        }
    }
}

/// Sorts scored moves, best first, equals in their order.
pub fn rank(s: &Vec<Scored>) -> (r: Vec<Scored>)
    ensures
        r@ == ranked(s@, s@.len() as int),
{
    let mut r: Vec<Scored> = Vec::new();
    let mut i: usize = 0;
    assert(r@ =~= ranked(s@, 0));
    while i < s.len()
        invariant
            i <= s@.len(),
            r@ == ranked(s@, i as int),
            r@.len() == i,
        decreases s@.len() - i,
    {
        let x: Scored = s[i];
        let ghost r0 = r@;
        let mut p: usize = i;
        assert(r0.subrange(0, i as int) =~= r0);
        while p > 0 && r[p - 1].1 < x.1
            invariant
                p <= i,
                r@ == r0,
                r0.len() == i,
                place_of(r0, x) == place_of(r0.subrange(0, p as int), x),
            decreases p,
        {
            assert(r0.subrange(0, p as int).drop_last() =~= r0.subrange(0, p - 1));
            p -= 1;
        }
        assert(place_of(r0, x) == p);
        r.insert(p, x);
        i += 1;
    }
    r
}

/// Spreads every run of scores that count as equal.
fn rebalance_symmetric_order(s: &Vec<Scored>) -> (r: Vec<Scored>)
    requires
        forall|i: int|
            0 <= i < s@.len() ==> -1_100_000_000 <= (#[trigger] s@[i]).1 <= 1_100_000_000,
    ensures
        r@ == rebalanced(s@, 0),
{
    let mut r: Vec<Scored> = Vec::new();
    let mut start: usize = 0;
    let n: usize = s.len();
    while start < n
        invariant
            start <= n,
            n == s@.len(),
            rebalanced(s@, 0) == r@ + rebalanced(s@, start as int),
            forall|i: int|
                0 <= i < s@.len() ==> -1_100_000_000 <= (#[trigger] s@[i]).1 <= 1_100_000_000,
        decreases n - start,
    {
        let top: i32 = s[start].1;
        let mut end: usize = start + 1;
        while end < n && s[end].1 >= top - ORDER_SCORE_TIE_BAND
            invariant
                start < end <= n,
                n == s@.len(),
                -1_100_000_000 <= top <= 1_100_000_000,
                band_end(s@, start + 1, top as int) == band_end(s@, end as int, top as int),
            decreases n - end,
        {
            end += 1;
        }
        assert(end == band_end(s@, start + 1, top as int));
        let ghost r0 = r@;
        push_spread(s, start, end, &mut r);
        proof {
            assert(r@ + rebalanced(s@, end as int) =~= r0 + (spread(s@, start as int, end as int)
                + rebalanced(s@, end as int)));
        }
        start = end;
    }
    assert(r@ + rebalanced(s@, n as int) =~= r@);
    r
}

/// Those of a run on one flank.
fn pick_flank(s: &Vec<Scored>, lo: usize, hi: usize, side: u8) -> (r: Vec<Scored>)
    requires
        lo <= hi <= s@.len(),
        side <= 2,
    ensures
        r@ == on_flank(s@, lo as int, hi as int, side as int),
        r@.len() <= hi - lo,
{
    let mut r: Vec<Scored> = Vec::new();
    let mut i: usize = lo;
    assert(r@ =~= on_flank(s@, lo as int, lo as int, side as int));
    while i < hi
        invariant
            lo <= i <= hi <= s@.len(),
            side <= 2,
            r@ == on_flank(s@, lo as int, i as int, side as int),
            r@.len() <= i - lo,
        decreases hi - i,
    {
        let c: u8 = move_col(s[i].0);
        let f: u8 = if c < 4 {
            0
        } else if c > 4 {
            2
        } else {
            1
        };
        assert(f == flank(s@[i as int].0));
        if f == side {
            r.push(s[i]);
        }
        i += 1;
    }
    r
}

/// Appends a run with the flanks by turns and the middle last.
fn push_spread(s: &Vec<Scored>, lo: usize, hi: usize, out: &mut Vec<Scored>)
    requires
        lo <= hi <= s@.len(),
    ensures
        final(out)@ == old(out)@ + spread(s@, lo as int, hi as int),
{
    let left: Vec<Scored> = pick_flank(s, lo, hi, 0);
    let right: Vec<Scored> = pick_flank(s, lo, hi, 2);
    let center: Vec<Scored> = pick_flank(s, lo, hi, 1);
    let rounds: usize = if left.len() < right.len() {
        right.len()
    } else {
        left.len()
    };
    let mut k: usize = 0;
    let ghost o0 = out@;
    assert(out@ =~= o0 + by_turns(left@, right@, 0));
    while k < rounds
        invariant
            k <= rounds,
            rounds == longer(left@, right@),
            out@ == o0 + by_turns(left@, right@, k as int),
        decreases rounds - k,
    {
        if k < left.len() {
            out.push(left[k]);
        }
        if k < right.len() {
            out.push(right[k]);
        }
        k += 1;
        assert(out@ =~= o0 + by_turns(left@, right@, k as int));
    }
    let ghost o1 = out@;
    let mut i: usize = 0;
    assert(out@ =~= o1 + center@.subrange(0, 0));
    while i < center.len()
        invariant
            i <= center@.len(),
            out@ == o1 + center@.subrange(0, i as int),
        decreases center@.len() - i,
    {
        out.push(center[i]);
        assert(center@.subrange(0, i + 1) =~= center@.subrange(0, i as int).push(center@[i as int]));
        i += 1;
        assert(out@ =~= o1 + center@.subrange(0, i as int));
    }
    assert(center@.subrange(0, center@.len() as int) =~= center@);
    assert(out@ =~= o0 + spread(s@, lo as int, hi as int));
}

/// A bonus from history, in range.
pub open spec fn bonus_ok<G: Fn(Move) -> i32>(history_bonus: G) -> bool {
    &&& forall|m: Move| #[trigger] call_requires(history_bonus, (m,))
    &&& forall|m: Move, r: i32| #[trigger]
        call_ensures(history_bonus, (m,), r) ==> -1_000_000_000 <= r <= 1_000_000_000
}

/// The moves with their scores before sorting: by the race and the heat, then
/// the extras, then the bonus.
pub open spec fn scores_are<F: Fn(i32, u16, u16) -> i32, G: Fn(Move) -> i32>(
    scene: OrderScene,
    refs: CatHeatRefs,
    extras: OrderExtras,
    boost: F,
    history_bonus: G,
    s: Seq<Scored>,
) -> bool {
    forall|i: int|
        0 <= i < s.len() ==> score_from(scene, refs, extras, boost, history_bonus, #[trigger] s[i])
}

/// One move's score before sorting.
pub open spec fn score_from<F: Fn(i32, u16, u16) -> i32, G: Fn(Move) -> i32>(
    scene: OrderScene,
    refs: CatHeatRefs,
    extras: OrderExtras,
    boost: F,
    history_bonus: G,
    x: Scored,
) -> bool {
    exists|base: int, bonus: i32|
        #![trigger with_extras(base, x.0, scene.tt_best, extras), call_ensures(history_bonus, (x.0,), bonus)]
        scene.score_is(x.0, ref_max(x.0, refs), CAT_COLD_CM, boost, base) && call_ensures(
            history_bonus,
            (x.0,),
            bonus,
        ) && x.1 == with_extras(base, x.0, scene.tt_best, extras) + bonus
}

/// The moves with their scores, the boosts against the hottest among them.
pub open spec fn scored_by<F: Fn(i32, u16, u16) -> i32, G: Fn(Move) -> i32>(
    scene: OrderScene,
    extras: OrderExtras,
    boost: F,
    history_bonus: G,
    moves: Seq<Move>,
    raw: Seq<Scored>,
) -> bool {
    &&& moves_of(raw) == moves
    &&& exists|refs: CatHeatRefs| #[trigger]
        scores_are(scene, refs, extras, boost, history_bonus, raw) && refs_of(
            refs,
            moves,
            Seq::new(moves.len(), |i: int| move_heat(scene.board, moves[i], scene.cat)),
            moves.len() as int,
        )
}

/// The moves of a list of scored moves.
pub open spec fn moves_of(s: Seq<Scored>) -> Seq<Move> {
    Seq::new(s.len(), |i: int| s[i].0)
}

/// Scores the first `n` moves.
fn score_moves<F: Fn(i32, u16, u16) -> i32, G: Fn(Move) -> i32>(
    board: &Board,
    moves: &[Move],
    n: usize,
    tt_best: Option<Move>,
    book_hint: Option<BookHint>,
    our_dist: u8,
    opp_dist: u8,
    opp_path: &[u8; 81],
    opp_path_len: usize,
    bfs: &BfsScratch,
    cat: &CorridorAttention,
    refs: CatHeatRefs,
    extras: &OrderExtras,
    history_bonus: &G,
    boost: &F,
    Ghost(scene): Ghost<OrderScene>,
) -> (s: Vec<Scored>)
    requires
        board.wf(),
        n <= moves@.len(),
        forall|i: int| 0 <= i < n ==> move_on_board(#[trigger] moves@[i]),
        opp_path_len <= 81,
        boosts(*boost),
        bonus_ok(*history_bonus),
        scene == (OrderScene {
            board: *board,
            tt_best,
            book_hint,
            our_dist: our_dist as int,
            opp_dist: opp_dist as int,
            opp_path: opp_path@,
            opp_path_len: opp_path_len as int,
            cat: *cat,
        }),
    ensures
        s@.len() == n,
        moves_of(s@) == moves@.subrange(0, n as int),
        scores_are(scene, refs, *extras, *boost, *history_bonus, s@),
        forall|i: int|
            0 <= i < s@.len() ==> -1_100_000_000 <= (#[trigger] s@[i]).1 <= 1_100_000_000,
{
    let mut s: Vec<Scored> = Vec::new();
    let mut i: usize = 0;
    while i < n
        invariant
            board.wf(),
            i <= n <= moves@.len(),
            forall|j: int| 0 <= j < n ==> move_on_board(#[trigger] moves@[j]),
            opp_path_len <= 81,
            boosts(*boost),
            bonus_ok(*history_bonus),
            scene == (OrderScene {
                board: *board,
                tt_best,
                book_hint,
                our_dist: our_dist as int,
                opp_dist: opp_dist as int,
                opp_path: opp_path@,
                opp_path_len: opp_path_len as int,
                cat: *cat,
            }),
            s@.len() == i,
            forall|j: int| 0 <= j < i ==> (#[trigger] s@[j]).0 == moves@[j],
            scores_are(scene, refs, *extras, *boost, *history_bonus, s@),
            forall|j: int|
                0 <= j < s@.len() ==> -1_100_000_000 <= (#[trigger] s@[j]).1 <= 1_100_000_000,
        decreases n - i,
    {
        let mv: Move = moves[i];
        assert(move_on_board(moves@[i as int]));
        let cat_ref: u16 = cat_heat_ref_max(mv, refs);
        let base: i32 = move_order_score(
            board,
            mv,
            tt_best,
            book_hint,
            our_dist,
            opp_dist,
            opp_path,
            opp_path_len,
            bfs,
            cat,
            cat_ref,
            CAT_COLD_CM,
            boost,
        );
        let with: i32 = apply_order_extras(base, mv, tt_best, extras);
        let bonus: i32 = history_bonus(mv);
        let x: Scored = (mv, with + bonus);
        proof {
            assert(scene.score_is(x.0, ref_max(x.0, refs), CAT_COLD_CM, *boost, base as int));
            assert(with == with_extras(base as int, x.0, scene.tt_best, *extras));
            assert(score_from(scene, refs, *extras, *boost, *history_bonus, x));
        }
        s.push(x);
        i += 1;
    }
    assert(moves_of(s@) =~= moves@.subrange(0, n as int));
    s
}

/// Orders the first `n` moves: by score, best first, and within scores that
/// count as equal the flanks by turns and the middle last. The scores go
/// along.
pub fn order_moves<F: Fn(i32, u16, u16) -> i32, G: Fn(Move) -> i32>(
    board: &Board,
    moves: &mut [Move],
    n: usize,
    tt_best: Option<Move>,
    book_hint: Option<BookHint>,
    scores: &mut [i32; 140],
    our_dist: u8,
    opp_dist: u8,
    opp_path: &[u8; 81],
    opp_path_len: usize,
    bfs: &BfsScratch,
    cat: &CorridorAttention,
    extras: &OrderExtras,
    history_bonus: &G,
    boost: &F,
)
    requires
        board.wf(),
        n <= old(moves)@.len(),
        n <= MAX_LEGAL_MOVES,
        forall|i: int| 0 <= i < n ==> move_on_board(#[trigger] old(moves)@[i]),
        opp_path_len <= 81,
        boosts(*boost),
        bonus_ok(*history_bonus),
    ensures
        final(moves)@.len() == old(moves)@.len(),
        exists|raw: Seq<Scored>| #[trigger]
            scored_by(
                (OrderScene {
                    board: *board,
                    tt_best,
                    book_hint,
                    our_dist: our_dist as int,
                    opp_dist: opp_dist as int,
                    opp_path: opp_path@,
                    opp_path_len: opp_path_len as int,
                    cat: *cat,
                }),
                *extras,
                *boost,
                *history_bonus,
                old(moves)@.subrange(0, n as int),
                raw,
            ) && forall|i: int|
                0 <= i < n ==> (#[trigger] final(moves)@[i], final(scores)@[i]) == rebalanced(
                    ranked(raw, n as int),
                    0,
                )[i],
        final(moves)@.subrange(0, n as int).to_multiset() == old(moves)@.subrange(
            0,
            n as int,
        ).to_multiset(),
        forall|i: int|
            n <= i < old(moves)@.len() ==> #[trigger] final(moves)@[i] == old(moves)@[i],
        forall|i: int| n <= i < 140 ==> #[trigger] final(scores)@[i] == old(scores)@[i],
        forall|i: int, j: int|
            0 <= i < j < n ==> (#[trigger] final(scores)@[j]) <= (#[trigger] final(scores)@[i])
                + ORDER_SCORE_TIE_BAND,
{
    let refs: CatHeatRefs = cat_heat_refs(moves, n, board, cat);
    let ghost scene = OrderScene {
        board: *board,
        tt_best,
        book_hint,
        our_dist: our_dist as int,
        opp_dist: opp_dist as int,
        opp_path: opp_path@,
        opp_path_len: opp_path_len as int,
        cat: *cat,
    };
    let raw: Vec<Scored> = score_moves(
        board,
        moves,
        n,
        tt_best,
        book_hint,
        our_dist,
        opp_dist,
        opp_path,
        opp_path_len,
        bfs,
        cat,
        refs,
        extras,
        history_bonus,
        boost,
        Ghost(scene),
    );
    let sorted: Vec<Scored> = rank(&raw);
    proof {
        lemma_ranked(raw@, n as int);
        assert(raw@.subrange(0, n as int) =~= raw@);
        lemma_members(sorted@, raw@);
    }
    let spread: Vec<Scored> = rebalance_symmetric_order(&sorted);
    proof {
        lemma_rebalanced(sorted@, 0);
        lemma_rebalanced_band(sorted@, 0);
        assert(sorted@.subrange(0, n as int) =~= sorted@);
        assert(spread@.to_multiset() == raw@.to_multiset());
        lemma_moves_of(spread@, raw@);
    }
    let ghost m0 = moves@;
    let ghost s0 = scores@;
    let mut i: usize = 0;
    while i < n
        invariant
            i <= n <= 140,
            n == spread@.len(),
            moves@.len() == m0.len(),
            n <= m0.len(),
            forall|j: int| 0 <= j < i ==> #[trigger] moves@[j] == spread@[j].0,
            forall|j: int| 0 <= j < i ==> #[trigger] scores@[j] == spread@[j].1,
            forall|j: int| i <= j < m0.len() ==> #[trigger] moves@[j] == m0[j],
            forall|j: int| i <= j < 140 ==> #[trigger] scores@[j] == s0[j],
        decreases n - i,
    {
        moves[i] = spread[i].0;
        scores[i] = spread[i].1;
        i += 1;
    }
    proof {
        assert(moves@.subrange(0, n as int) =~= moves_of(spread@));
        assert(scores_are(scene, refs, *extras, *boost, *history_bonus, raw@));
        let head = m0.subrange(0, n as int);
        lemma_refs_head(refs, m0, head, n as int, scene);
        assert(scored_by(scene, *extras, *boost, *history_bonus, head, raw@));
        assert forall|i: int| 0 <= i < n implies (#[trigger] moves@[i], scores@[i]) == rebalanced(
            ranked(raw@, n as int),
            0,
        )[i] by {
            assert(scores@[i] == spread@[i].1);
        }
    }
}

/// The hottest among the first moves depend on no others.
proof fn lemma_refs_head(refs: CatHeatRefs, m: Seq<Move>, head: Seq<Move>, n: int, scene: OrderScene)
    requires
        0 <= n <= m.len(),
        head == m.subrange(0, n),
        refs_of(
            refs,
            m,
            Seq::new(n as nat, |i: int| move_heat(scene.board, m[i], scene.cat)),
            n,
        ),
    ensures
        refs_of(
            refs,
            head,
            Seq::new(head.len(), |i: int| move_heat(scene.board, head[i], scene.cat)),
            head.len() as int,
        ),
{
    let a = Seq::new(n as nat, |i: int| move_heat(scene.board, m[i], scene.cat));
    let b = Seq::new(head.len(), |i: int| move_heat(scene.board, head[i], scene.cat));
    assert(a =~= b);
    lemma_hottest_head(m, head, a, 0, n);
    lemma_hottest_head(m, head, a, 1, n);
    lemma_hottest_head(m, head, a, 2, n);
}

proof fn lemma_hottest_head(m: Seq<Move>, head: Seq<Move>, heats: Seq<int>, kind: int, k: int)
    requires
        0 <= k <= head.len() <= m.len(),
        forall|i: int| 0 <= i < head.len() ==> #[trigger] head[i] == m[i],
    ensures
        hottest(head, heats, kind, k) == hottest(m, heats, kind, k),
    decreases k,
{
    if k > 0 {
        lemma_hottest_head(m, head, heats, kind, k - 1);
        assert(head[k - 1] == m[k - 1]);
    }
}

/// Lists with the same elements have the same bounds.
proof fn lemma_members(a: Seq<Scored>, b: Seq<Scored>)
    requires
        a.to_multiset() == b.to_multiset(),
        forall|i: int|
            0 <= i < b.len() ==> -1_100_000_000 <= (#[trigger] b[i]).1 <= 1_100_000_000,
    ensures
        forall|i: int|
            0 <= i < a.len() ==> -1_100_000_000 <= (#[trigger] a[i]).1 <= 1_100_000_000,
{
    broadcast use vstd::seq_lib::group_to_multiset_ensures;

    assert forall|i: int| 0 <= i < a.len() implies -1_100_000_000 <= (#[trigger] a[i]).1
        <= 1_100_000_000 by {
        assert(a.contains(a[i]));
        assert(a.to_multiset().count(a[i]) > 0);
        assert(b.contains(a[i]));
        let j = choose|j: int| 0 <= j < b.len() && b[j] == a[i];
        assert(b[j].1 == a[i].1);
    }
}

/// Lists with the same scored moves have the same moves.
proof fn lemma_moves_of(a: Seq<Scored>, b: Seq<Scored>)
    requires
        a.to_multiset() == b.to_multiset(),
    ensures
        moves_of(a).to_multiset() == moves_of(b).to_multiset(),
    decreases a.len(),
{
    broadcast use vstd::seq_lib::group_to_multiset_ensures;

    assert(a.len() == b.len()) by {
        vstd::seq_lib::to_multiset_len(a);
        vstd::seq_lib::to_multiset_len(b);
    }
    if a.len() == 0 {
        assert(moves_of(a) =~= moves_of(b));
    } else {
        let x = a.last();
        assert(a.to_multiset().count(x) > 0);
        assert(b.contains(x));
        let j = choose|j: int| 0 <= j < b.len() && b[j] == x;
        let b1 = b.remove(j);
        let a1 = a.drop_last();
        assert(a =~= a1.push(x));
        assert(b1.to_multiset() =~= b.to_multiset().remove(x)) by {
            vstd::seq_lib::to_multiset_remove(b, j);
        }
        assert(a1.to_multiset() =~= a.to_multiset().remove(x));
        lemma_moves_of(a1, b1);
        assert(moves_of(a) =~= moves_of(a1).push(x.0));
        assert(moves_of(b).remove(j) =~= moves_of(b1));
        vstd::seq_lib::to_multiset_remove(moves_of(b), j);
        assert(moves_of(b)[j] == x.0);
        assert(moves_of(b).to_multiset().count(x.0) > 0) by {
            assert(moves_of(b).contains(x.0));
        }
        assert(moves_of(a).to_multiset() =~= moves_of(b).to_multiset());
    }
}

} // verus!
