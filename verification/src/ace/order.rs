//! Move ordering and the depths that an order is worth.

use vstd::prelude::*;

use crate::ace::convert::is_ace_move;

verus! {

/// Moves before this index are not reduced.
pub const ACE_LMR_AFTER_MOVE: usize = 4;

/// Least depth for reductions and extensions.
pub const ACE_LMR_MIN_DEPTH: i32 = 3;

/// Moves up to this index may be extended.
pub const ACE_EME_TOP_MOVES: usize = 2;

/// One ply, one more from the twelfth move on, and one more from the
/// twenty-fourth on where depth is left.
pub open spec fn graduated(move_index: int, depth: int) -> int {
    1 + (if move_index >= 12 {
        1int
    } else {
        0int
    }) + (if depth >= 6 && move_index >= 24 {
        1int
    } else {
        0int
    })
}

/// Plies that a late move is searched less deep.
pub fn ace_graduated_lmr_reduction(move_index: usize, depth: i32) -> (red: i32)
    ensures
        red == graduated(move_index as int, depth as int),
{
    let mut red: i32 = 1;
    if move_index >= 12 {
        red = red + 1;
    }
    if depth >= 6 && move_index >= 24 {
        red = red + 1;
    }
    red
}

/// Plies that an early wall is searched deeper: two for the first at depth
/// eight, else one.
pub fn ace_graduated_eme_extension(move_index: usize, depth: i32) -> (ext: i32)
    ensures
        ext == (if move_index == 1 && depth >= 8 {
            2int
        } else {
            1int
        }),
{
    if move_index == 1 && depth >= 8 {
        2
    } else {
        1
    }
}

/// How a move is searched.
#[derive(Clone, Copy, PartialEq, Eq, Structural)]
pub enum ChildPlan {
    /// Deeper, in the full window.
    Extended { depth: i32 },
    /// Less deep in a null window first; at full depth where that beats alpha.
    Reduced { depth: i32, full: i32 },
    /// In a null window first; in the full window where that falls inside.
    Scouted { depth: i32 },
    /// In the full window.
    Full { depth: i32 },
}

impl ChildPlan {
    /// No depth is left for the child.
    pub open spec fn is_leaf(self) -> bool {
        match self {
            ChildPlan::Extended { depth } => depth == 0,
            ChildPlan::Reduced { depth, full } => depth == 0 && full == 0,
            ChildPlan::Scouted { depth } => depth == 0,
            ChildPlan::Full { depth } => depth == 0,
        }
    }
}

/// The plan of the `i`-th move at a depth.
pub open spec fn plan_spec(i: int, depth: int, m: i16, tt_move: i16, eme: bool) -> ChildPlan {
    let late_wall = depth >= 3 && m >= 100 && m != tt_move;
    if eme && 0 < i <= 2 && late_wall {
        ChildPlan::Extended {
            depth: (depth - 1 + (if i == 1 && depth >= 8 {
                2int
            } else {
                1int
            })) as i32,
        }
    } else if i >= 4 && late_wall {
        let red = 1 + (if i >= 12 {
            1int
        } else {
            0int
        }) + (if depth >= 6 && i >= 24 {
            1int
        } else {
            0int
        });
        ChildPlan::Reduced {
            depth: (if depth - 1 - red >= 0 {
                depth - 1 - red
            } else {
                0
            }) as i32,
            full: (depth - 1) as i32,
        }
    } else if i > 0 {
        ChildPlan::Scouted { depth: (depth - 1) as i32 }
    } else {
        ChildPlan::Full { depth: (depth - 1) as i32 }
    }
}

/// The plan of the `i`-th move at a depth.
pub fn child_plan(i: usize, depth: i32, m: i16, tt_move: i16, eme: bool) -> (p: ChildPlan)
    requires
        0 <= depth <= 100_000,
    ensures
        p == plan_spec(i as int, depth as int, m, tt_move, eme),
{
    let late_wall: bool = depth >= ACE_LMR_MIN_DEPTH && m >= 100 && m != tt_move;
    let new_depth: i32 = depth - 1;
    if eme && i > 0 && i <= ACE_EME_TOP_MOVES && late_wall {
        ChildPlan::Extended { depth: new_depth + ace_graduated_eme_extension(i, depth) }
    } else if i >= ACE_LMR_AFTER_MOVE && late_wall {
        let rd: i32 = new_depth - ace_graduated_lmr_reduction(i, depth);
        ChildPlan::Reduced {
            depth: if rd >= 0 {
                rd
            } else {
                0
            },
            full: new_depth,
        }
    } else if i > 0 {
        ChildPlan::Scouted { depth: new_depth }
    } else {
        ChildPlan::Full { depth: new_depth }
    }
}

/// What an order goes by.
pub struct OrderKey {
    pub tt_move: i16,
    pub cm_move: i16,
    pub k0: i16,
    pub k1: i16,
    /// The mover's distances.
    pub dist_me: Seq<u8>,
    pub history: Seq<i32>,
}

impl OrderKey {
    /// The table's move first, then pawn moves by distance, killers and the
    /// countermove, then walls by history.
    pub open spec fn score(self, m: i16) -> int {
        if m == self.tt_move {
            2_000_000_000
        } else if m < 100 {
            1_000_000 - self.dist_me[m as int] * 1000
        } else if m == self.k0 {
            900_000
        } else if m == self.cm_move {
            870_000
        } else if m == self.k1 {
            850_000
        } else {
            self.history[m as int] as int
        }
    }
}

/// `m` put into a list by descending score, behind its equals.
pub open spec fn insert_desc(s: Seq<i16>, m: i16, k: OrderKey) -> Seq<i16>
    decreases s.len(),
{
    if s.len() > 0 && k.score(s.last()) < k.score(m) {
        insert_desc(s.drop_last(), m, k).push(s.last())
    } else {
        s.push(m)
    }
}

/// The first `n` moves by descending score, equals in their old order.
pub open spec fn sorted_desc(s: Seq<i16>, k: OrderKey, n: int) -> Seq<i16>
    decreases n,
{
    if n <= 0 {
        Seq::empty()
    } else {
        insert_desc(sorted_desc(s, k, n - 1), s[n - 1], k)
    }
}

/// Where a move goes in.
proof fn lemma_insert_at(s: Seq<i16>, m: i16, k: OrderKey, p: int)
    requires
        0 <= p <= s.len(),
        forall|i: int| p <= i < s.len() ==> k.score(#[trigger] s[i]) < k.score(m),
        p > 0 ==> k.score(s[p - 1]) >= k.score(m),
    ensures
        insert_desc(s, m, k) == s.subrange(0, p) + seq![m] + s.subrange(p, s.len() as int),
    decreases s.len(),
{
    let r = s.subrange(0, p) + seq![m] + s.subrange(p, s.len() as int);
    if s.len() > 0 && k.score(s.last()) < k.score(m) {
        let t = s.drop_last();
        assert(p <= t.len());
        assert forall|i: int| p <= i < t.len() implies k.score(#[trigger] t[i]) < k.score(m) by {
            assert(t[i] == s[i]);
        }
        if p > 0 {
            assert(t[p - 1] == s[p - 1]);
        }
        lemma_insert_at(t, m, k, p);
        assert(insert_desc(t, m, k).push(s.last()) =~= r);
    } else {
        assert(p == s.len());
        assert(s.push(m) =~= r);
    }
}

proof fn lemma_insert_len(s: Seq<i16>, m: i16, k: OrderKey)
    ensures
        insert_desc(s, m, k).len() == s.len() + 1,
        insert_desc(s, m, k).to_multiset() == s.to_multiset().insert(m),
    decreases s.len(),
{
    broadcast use vstd::seq_lib::group_to_multiset_ensures;

    if s.len() > 0 && k.score(s.last()) < k.score(m) {
        let t = s.drop_last();
        lemma_insert_len(t, m, k);
        assert(s == t.push(s.last()));
    }
}

/// Inserting keeps a list in descending order.
proof fn lemma_insert_descends(s: Seq<i16>, m: i16, k: OrderKey)
    requires
        descends(s, k),
    ensures
        descends(insert_desc(s, m, k), k),
        forall|i: int|
            0 <= i < insert_desc(s, m, k).len() ==> k.score(#[trigger] insert_desc(s, m, k)[i])
                <= k.score(m) || s.contains(insert_desc(s, m, k)[i]),
    decreases s.len(),
{
    let r = insert_desc(s, m, k);
    if s.len() > 0 && k.score(s.last()) < k.score(m) {
        let t = s.drop_last();
        assert forall|i: int, j: int| 0 <= i < j < t.len() implies k.score(#[trigger] t[i])
            >= k.score(#[trigger] t[j]) by {
            assert(t[i] == s[i] && t[j] == s[j]);
        }
        lemma_insert_descends(t, m, k);
        lemma_insert_len(t, m, k);
        lemma_insert_from(t, m, k);
        let u = insert_desc(t, m, k);
        assert(r == u.push(s.last()));
        assert forall|i: int, j: int| 0 <= i < j < r.len() implies k.score(#[trigger] r[i])
            >= k.score(#[trigger] r[j]) by {
            assert(r[i] == u[i]);
            if j < u.len() {
                assert(r[j] == u[j]);
            } else {
                assert(r[j] == s.last());
                assert(u[i] == m || t.contains(u[i]));
                if t.contains(u[i]) {
                    let q = choose|q: int| 0 <= q < t.len() && t[q] == u[i];
                    assert(s[q] == u[i]);
                    assert(s[s.len() - 1] == s.last());
                }
            }
        }
        assert forall|i: int| 0 <= i < r.len() implies k.score(#[trigger] r[i]) <= k.score(m)
            || s.contains(r[i]) by {
            if i < u.len() {
                assert(r[i] == u[i]);
                assert(u[i] == m || t.contains(u[i]));
                if t.contains(u[i]) {
                    let q = choose|q: int| 0 <= q < t.len() && t[q] == u[i];
                    assert(s[q] == u[i]);
                }
            } else {
                assert(r[i] == s[s.len() - 1]);
            }
        }
    } else {
        assert forall|i: int, j: int| 0 <= i < j < r.len() implies k.score(#[trigger] r[i])
            >= k.score(#[trigger] r[j]) by {
            assert(r[i] == s[i]);
            if j == s.len() {
                assert(r[j] == m);
                if i < s.len() - 1 {
                    assert(k.score(s[i]) >= k.score(s[s.len() - 1]));
                }
            } else {
                assert(r[j] == s[j]);
            }
        }
        assert forall|i: int| 0 <= i < r.len() implies k.score(#[trigger] r[i]) <= k.score(m)
            || s.contains(r[i]) by {
            if i < s.len() {
                assert(r[i] == s[i]);
            }
        }
    }
}

/// What the list holds after inserting.
proof fn lemma_insert_from(s: Seq<i16>, m: i16, k: OrderKey)
    ensures
        forall|i: int|
            0 <= i < insert_desc(s, m, k).len() ==> #[trigger] insert_desc(s, m, k)[i] == m
                || s.contains(insert_desc(s, m, k)[i]),
    decreases s.len(),
{
    let r = insert_desc(s, m, k);
    if s.len() > 0 && k.score(s.last()) < k.score(m) {
        let t = s.drop_last();
        lemma_insert_from(t, m, k);
        let u = insert_desc(t, m, k);
        assert forall|i: int| 0 <= i < r.len() implies #[trigger] r[i] == m || s.contains(r[i]) by {
            if i < u.len() {
                assert(r[i] == u[i]);
                if u[i] != m {
                    let q = choose|q: int| 0 <= q < t.len() && t[q] == u[i];
                    assert(s[q] == u[i]);
                }
            } else {
                assert(r[i] == s[s.len() - 1]);
            }
        }
    } else {
        assert forall|i: int| 0 <= i < r.len() implies #[trigger] r[i] == m || s.contains(r[i]) by {
            if i < s.len() {
                assert(r[i] == s[i]);
            }
        }
    }
}

/// The list is in descending order.
pub open spec fn descends(s: Seq<i16>, k: OrderKey) -> bool {
    forall|i: int, j: int|
        0 <= i < j < s.len() ==> k.score(#[trigger] s[i]) >= k.score(#[trigger] s[j])
}

/// Every move is in the ordered list.
pub proof fn lemma_sorted_lists(s: Seq<i16>, k: OrderKey, n: int, j: int)
    requires
        0 <= j < n <= s.len(),
    ensures
        exists|i: int| 0 <= i < n && #[trigger] sorted_desc(s, k, n)[i] == s[j],
{
    broadcast use vstd::seq_lib::group_to_multiset_ensures;

    lemma_sorted(s, k, n);
    let head = s.subrange(0, n);
    let r = sorted_desc(s, k, n);
    assert(head[j] == s[j]);
    assert(head.contains(s[j]));
    assert(head.to_multiset().count(s[j]) > 0);
    assert(r.to_multiset().count(s[j]) > 0);
    assert(r.contains(s[j]));
    let i = choose|i: int| 0 <= i < r.len() && r[i] == s[j];
    assert(r[i] == s[j]);
}

/// Ordering rearranges the moves and puts them in descending order.
pub proof fn lemma_sorted(s: Seq<i16>, k: OrderKey, n: int)
    requires
        0 <= n <= s.len(),
    ensures
        sorted_desc(s, k, n).len() == n,
        sorted_desc(s, k, n).to_multiset() == s.subrange(0, n).to_multiset(),
        descends(sorted_desc(s, k, n), k),
        forall|i: int|
            0 <= i < n ==> s.subrange(0, n).contains(#[trigger] sorted_desc(s, k, n)[i]),
    decreases n,
{
    broadcast use vstd::seq_lib::group_to_multiset_ensures;

    if n > 0 {
        lemma_sorted(s, k, n - 1);
        let p = sorted_desc(s, k, n - 1);
        lemma_insert_len(p, s[n - 1], k);
        lemma_insert_descends(p, s[n - 1], k);
        lemma_insert_from(p, s[n - 1], k);
        assert(s.subrange(0, n) =~= s.subrange(0, n - 1).push(s[n - 1]));
        let r = sorted_desc(s, k, n);
        assert forall|i: int| 0 <= i < n implies s.subrange(0, n).contains(#[trigger] r[i]) by {
            if r[i] == s[n - 1] {
                assert(s.subrange(0, n)[n - 1] == r[i]);
            } else {
                let q = choose|q: int| 0 <= q < p.len() && p[q] == r[i];
                let head = s.subrange(0, n - 1);
                assert(head.contains(p[q]));
                let w = choose|w: int| 0 <= w < head.len() && head[w] == p[q];
                assert(s.subrange(0, n)[w] == r[i]);
            }
        }
    } else {
        assert(s.subrange(0, 0) =~= Seq::<i16>::empty());
        assert(sorted_desc(s, k, n) =~= s.subrange(0, 0));
    }
}

/// The parts of an order's key that are looked up.
#[derive(Clone, Copy)]
pub struct OrderHints {
    pub tt_move: i16,
    pub cm_move: i16,
    pub k0: i16,
    pub k1: i16,
}

/// The key of hints and tables.
pub open spec fn key_of(h: OrderHints, dist_me: Seq<u8>, history: Seq<i32>) -> OrderKey {
    OrderKey { tt_move: h.tt_move, cm_move: h.cm_move, k0: h.k0, k1: h.k1, dist_me, history }
}

/// The score of a move.
fn order_score(m: i16, hints: OrderHints, dist_me: &[u8; 81], history: &[i32; 512]) -> (r: i32)
    requires
        is_ace_move(m),
    ensures
        r == key_of(hints, dist_me@, history@).score(m),
{
    if m == hints.tt_move {
        2_000_000_000
    } else if m < 100 {
        1_000_000 - dist_me[m as usize] as i32 * 1000
    } else if m == hints.k0 {
        900_000
    } else if m == hints.cm_move {
        870_000
    } else if m == hints.k1 {
        850_000
    } else {
        history[m as usize]
    }
}

/// Puts move `a` of a list whose first `a` moves are in order into its place.
fn sift(moves: &mut [i16; 160], sc: &mut [i32; 160], a: usize, Ghost(k): Ghost<OrderKey>)
    requires
        a < 160,
        forall|i: int| 0 <= i <= a ==> #[trigger] old(sc)[i] == k.score(old(moves)[i]),
    ensures
        final(moves)@.subrange(0, a + 1) == insert_desc(
            old(moves)@.subrange(0, a as int),
            old(moves)[a as int],
            k,
        ),
        forall|i: int| a < i < 160 ==> #[trigger] final(moves)[i] == old(moves)[i],
        forall|i: int| a < i < 160 ==> #[trigger] final(sc)[i] == old(sc)[i],
        forall|i: int| 0 <= i <= a ==> #[trigger] final(sc)[i] == k.score(final(moves)[i]),
{
    let mv: i16 = moves[a];
    let ms: i32 = sc[a];
    let ghost m0 = moves@;
    let ghost s0 = sc@;
    let mut b: usize = a;
    while b > 0 && sc[b - 1] < ms
        invariant
            b <= a < 160,
            m0 == old(moves)@,
            s0 == old(sc)@,
            m0.len() == 160,
            s0.len() == 160,
            ms == k.score(mv),
            mv == m0[a as int],
            forall|i: int| 0 <= i <= a ==> #[trigger] s0[i] == k.score(m0[i]),
            forall|i: int| 0 <= i < b ==> #[trigger] moves[i] == m0[i],
            forall|i: int| 0 <= i < b ==> #[trigger] sc[i] == s0[i],
            forall|i: int| b < i <= a ==> #[trigger] moves[i] == m0[i - 1],
            forall|i: int| b < i <= a ==> #[trigger] sc[i] == s0[i - 1],
            forall|i: int| a < i < 160 ==> #[trigger] moves[i] == m0[i],
            forall|i: int| a < i < 160 ==> #[trigger] sc[i] == s0[i],
            forall|i: int| b <= i < a ==> #[trigger] s0[i] < ms,
        decreases b,
    {
        let x: i16 = moves[b - 1];
        let y: i32 = sc[b - 1];
        moves[b] = x;
        sc[b] = y;
        b = b - 1;
    }
    moves[b] = mv;
    sc[b] = ms;
    proof {
        let s = m0.subrange(0, a as int);
        assert forall|i: int| b <= i < s.len() implies k.score(#[trigger] s[i]) < k.score(mv) by {
            assert(s0[i] < ms);
        }
        if b > 0 {
            assert(s[b - 1] == m0[b - 1]);
            assert(s0[b - 1] == k.score(m0[b - 1]));
        }
        lemma_insert_at(s, mv, k, b as int);
        let r = s.subrange(0, b as int) + seq![mv] + s.subrange(b as int, s.len() as int);
        assert forall|i: int| 0 <= i < a + 1 implies moves@.subrange(0, a + 1)[i] == r[i] by {
            if i > b {
                assert(moves[i] == m0[i - 1]);
            }
        }
        assert(moves@.subrange(0, a + 1) =~= r);
        assert forall|i: int| 0 <= i <= a implies #[trigger] sc[i] == k.score(moves[i]) by {
            if i > b {
                assert(sc[i] == s0[i - 1] && moves[i] == m0[i - 1]);
                assert(s0[i - 1] == k.score(m0[i - 1]));
            } else if i < b {
                assert(s0[i] == k.score(m0[i]));
            }
        }
    }
}

/// Orders the first `n` moves by descending score; equals keep their order.
pub fn order_moves(
    moves: &mut [i16; 160],
    n: usize,
    hints: OrderHints,
    dist_me: &[u8; 81],
    history: &[i32; 512],
)
    requires
        n <= 160,
        forall|i: int| 0 <= i < n ==> is_ace_move(#[trigger] old(moves)[i]),
    ensures
        final(moves)@.subrange(0, n as int) == sorted_desc(
            old(moves)@,
            key_of(hints, dist_me@, history@),
            n as int,
        ),
        forall|i: int| n <= i < 160 ==> #[trigger] final(moves)[i] == old(moves)[i],
{
    let ghost k = key_of(hints, dist_me@, history@);
    let ghost m0 = moves@;
    let mut sc: [i32; 160] = [0i32; 160];
    let mut i: usize = 0;
    while i < n
        invariant
            i <= n <= 160,
            k == key_of(hints, dist_me@, history@),
            m0 == moves@,
            m0 == old(moves)@,
            forall|j: int| 0 <= j < n ==> is_ace_move(#[trigger] moves[j]),
            forall|j: int| 0 <= j < i ==> #[trigger] sc[j] == k.score(m0[j]),
        decreases n - i,
    {
        sc[i] = order_score(moves[i], hints, dist_me, history);
        i = i + 1;
    }
    if n == 0 {
        assert(moves@.subrange(0, 0) =~= sorted_desc(m0, k, 0));
        return ;
    }
    let mut a: usize = 0;
    assert(moves@.subrange(0, 0) =~= sorted_desc(m0, k, 0));
    while a < n
        invariant
            a <= n <= 160,
            m0.len() == 160,
            m0 == old(moves)@,
            moves@.subrange(0, a as int) == sorted_desc(m0, k, a as int),
            forall|j: int| a <= j < 160 ==> #[trigger] moves[j] == m0[j],
            forall|j: int| 0 <= j < n ==> #[trigger] sc[j] == k.score(moves[j]),
        decreases n - a,
    {
        let ghost before = moves@;
        sift(moves, &mut sc, a, Ghost(k));
        a = a + 1;
    }
}

} // verus!
