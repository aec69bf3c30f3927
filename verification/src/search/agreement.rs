//! How far two rankings of the same moves agree.

use vstd::prelude::*;

use crate::cat::order::{lemma_ranked, rank, ranked, Scored};
use crate::position::board::Move;

verus! {

/// The place of a move in a ranking, the last if it stands there more than once.
pub open spec fn place_in(list: Seq<Scored>, n: int, mv: Move) -> Option<int>
    decreases n,
{
    if n <= 0 {
        None
    } else if list[n - 1].0 == mv {
        Some(n - 1)
    } else {
        place_in(list, n - 1, mv)
    }
}

/// The places in one ranking of the first `n` moves of another, as far as they
/// have one.
pub open spec fn common_places(first: Seq<Move>, list: Seq<Scored>, n: int) -> Seq<int>
    decreases n,
{
    if n <= 0 {
        Seq::empty()
    } else {
        match place_in(list, list.len() as int, first[n - 1]) {
            Some(p) => common_places(first, list, n - 1).push(p),
            None => common_places(first, list, n - 1),
        }
    }
}

/// How many of the first `n` places come before the place of index `k`.
pub open spec fn places_before(p: Seq<int>, k: int, n: int) -> int
    decreases n,
{
    if n <= 0 {
        0
    } else {
        places_before(p, k, n - 1) + (if p[n - 1] < p[k] || (p[n - 1] == p[k] && n - 1 < k) {
            1int
        } else {
            0
        })
    }
}

/// The sum of the squares of the differences between rank and rank, over the
/// first `k` moves that both rankings have.
pub open spec fn rank_distance(p: Seq<int>, k: int) -> int
    decreases k,
{
    if k <= 0 {
        0
    } else {
        let d = (k - 1) - places_before(p, k - 1, p.len() as int);
        rank_distance(p, k - 1) + d * d
    }
}

/// So many moves that the sum of their squared distances fits in 64 bits.
pub const MAX_RANKED: usize = 2_000_000;

/// How far two rankings agree.
#[derive(Debug, Clone, Copy, PartialEq, Eq, Structural)]
pub struct Agreement {
    /// They begin with the same move.
    pub top1: bool,
    /// The first of one is among the first three of the other.
    pub top3: bool,
    /// Moves that both have.
    pub common: usize,
    /// Sum of the squared differences of the ranks among those.
    pub d2_sum: u64,
}

fn find_place(list: &Vec<Scored>, mv: Move) -> (r: Option<usize>)
    ensures
        (match r {
            Some(x) => Some(x as int),
            None => None,
        }) == place_in(list@, list@.len() as int, mv),
{
    let mut n: usize = list.len();
    while n > 0
        invariant
            n <= list@.len(),
            place_in(list@, list@.len() as int, mv) == place_in(list@, n as int, mv),
        decreases n,
    {
        if list[n - 1].0 == mv {
            return Some(n - 1);
        }
        n -= 1;
    }
    None
}

/// The places as integers.
pub open spec fn ints(p: Seq<usize>) -> Seq<int> {
    Seq::new(p.len(), |i: int| p[i] as int)
}

fn count_before(p: &Vec<usize>, k: usize) -> (r: usize)
    requires
        k < p@.len(),
    ensures
        r == places_before(ints(p@), k as int, p@.len() as int),
        r <= p@.len(),
{
    let mut r: usize = 0;
    let mut n: usize = 0;
    while n < p.len()
        invariant
            n <= p@.len(),
            k < p@.len(),
            r <= n,
            r == places_before(ints(p@), k as int, n as int),
        decreases p@.len() - n,
    {
        if p[n] < p[k] || (p[n] == p[k] && n < k) {
            r += 1;
        }
        n += 1;
    }
    r
}

/// Compares a ranking with moves that are to be ranked by their scores.
pub fn compare_rankings(first: &Vec<Move>, deep: &Vec<Scored>) -> (r: Agreement)
    requires
        first@.len() <= MAX_RANKED,
    ensures
        ({
            let list = ranked(deep@, deep@.len() as int);
            let p = common_places(first@, list, first@.len() as int);
            &&& r.top1 == (if first@.len() == 0 || list.len() == 0 {
                first@.len() == 0 && list.len() == 0
            } else {
                first@[0] == list[0].0
            })
            &&& r.top3 == (first@.len() > 0 && exists|i: int|
                0 <= i < 3 && i < list.len() && (#[trigger] list[i]).0 == first@[0])
            &&& r.common == p.len()
            &&& r.d2_sum == rank_distance(p, p.len() as int)
        }),
{
    let list: Vec<Scored> = rank(deep);
    proof {
        lemma_ranked(deep@, deep@.len() as int);
    }
    let mut places: Vec<usize> = Vec::new();
    let mut i: usize = 0;
    assert(ints(places@) =~= common_places(first@, list@, 0));
    while i < first.len()
        invariant
            i <= first@.len(),
            places@.len() <= i,
            ints(places@) == common_places(first@, list@, i as int),
        decreases first@.len() - i,
    {
        if let Some(p) = find_place(&list, first[i]) {
            let ghost before = places@;
            places.push(p);
            assert(ints(places@) =~= ints(before).push(p as int));
        }
        i += 1;
    }
    let ghost p = ints(places@);
    let mut d2_sum: u64 = 0;
    let mut k: usize = 0;
    while k < places.len()
        invariant
            k <= places@.len() <= MAX_RANKED,
            p == ints(places@),
            p.len() == places@.len(),
            d2_sum == rank_distance(p, k as int),
            d2_sum <= k * 4_000_000_000_000,
        decreases places@.len() - k,
    {
        let before: usize = count_before(&places, k);
        let d: u64 = if k > before {
            (k - before) as u64
        } else {
            (before - k) as u64
        };
        assert(d <= 2_000_000);
        assert(d * d <= 4_000_000_000_000) by (nonlinear_arith)
            requires
                0 <= d <= 2_000_000,
        ;
        proof {
            let e = k - before;
            assert(e * e == d * d) by (nonlinear_arith)
                requires
                    e == d || e == -d,
            ;
        }
        d2_sum = d2_sum + d * d;
        k += 1;
    }
    let mut top1: bool = first.len() == 0 && list.len() == 0;
    let mut top3: bool = false;
    if first.len() > 0 {
        let mv: Move = first[0];
        let mut j: usize = 0;
        while j < 3 && j < list.len()
            invariant
                j <= 3,
                j <= list@.len(),
                mv == first@[0],
                top3 == exists|i: int| 0 <= i < j && (#[trigger] list@[i]).0 == mv,
            decreases 3 - j,
        {
            if list[j].0 == mv {
                top3 = true;
            }
            j += 1;
        }
        if list.len() > 0 {
            top1 = list[0].0 == mv;
        }
    }
    Agreement { top1, top3, common: places.len(), d2_sum }
}

/// Rankings with the same moves in the same order are no distance apart.
pub proof fn lemma_same_ranking(p: Seq<int>, k: int)
    requires
        0 <= k <= p.len(),
        forall|i: int, j: int| 0 <= i < j < p.len() ==> #[trigger] p[i] < #[trigger] p[j],
    ensures
        rank_distance(p, k) == 0,
    decreases k,
{
    if k > 0 {
        lemma_same_ranking(p, k - 1);
        lemma_before_in_order(p, k - 1, p.len() as int);
    }
}

proof fn lemma_before_in_order(p: Seq<int>, k: int, n: int)
    requires
        0 <= k < p.len(),
        0 <= n <= p.len(),
        forall|i: int, j: int| 0 <= i < j < p.len() ==> #[trigger] p[i] < #[trigger] p[j],
    ensures
        places_before(p, k, n) == (if n < k {
            n
        } else {
            k
        }),
    decreases n,
{
    if n > 0 {
        lemma_before_in_order(p, k, n - 1);
        if n - 1 < k {
            assert(p[n - 1] < p[k]);
        } else if n - 1 > k {
            assert(p[k] < p[n - 1]);
        }
    }
}

} // verus!
