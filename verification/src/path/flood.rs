//! Flood fill: all directions of a whole set of squares at a time.

use vstd::prelude::*;

use crate::path::graph::{
    dist, goal_squares, lemma_reach_same, lemma_stable_reach, only, reach, within, Squares, StepRel,
};
use crate::path::masks::DirMasks;
use crate::position::board::Player;
use crate::util::bits::{
    bit128, bit64, lemma_bits128, lemma_empty64, lemma_one128, lemma_shift128,
};

verus! {

/// The squares of a flood word.
pub open spec fn squares(m: u128) -> Squares {
    |sq: int| 0 <= sq < 128 && bit128(m, sq)
}

/// No bit stands for anything but a square.
pub open spec fn on_board(m: u128) -> bool {
    forall|i: int| 81 <= i < 128 ==> !bit128(m, i)
}

/// The set `m` is everything within `n` steps of `src`.
pub open spec fn is_within(m: u128, step: StepRel, src: Squares, n: nat) -> bool {
    forall|i: int| 0 <= i < 128 ==> bit128(m, i) == within(step, src, i, n)
}

/// The set and everything one step away from it.
#[inline]
pub fn spread(m: u128, masks: &DirMasks) -> (r: u128)
    requires
        masks.wf(),
    ensures
        r >= m,
        forall|src: Squares, n: nat| #[trigger]
            is_within(m, masks.steps(), src, n) ==> is_within(r, masks.steps(), src, n + 1),
{
    let a: u128 = (m & masks.north) >> 9;
    let b: u128 = (m & masks.south) << 9;
    let c: u128 = (m & masks.west) >> 1;
    let d: u128 = (m & masks.east) << 1;
    let r: u128 = m | (a | b | c | d);
    proof {
        lemma_bits128(m, a | b | c | d, 0);
        let step = masks.steps();
        assert forall|src: Squares, n: nat| #[trigger] is_within(m, step, src, n) implies is_within(
            r,
            step,
            src,
            n + 1,
        ) by {
            assert forall|i: int| 0 <= i < 128 implies bit128(r, i) == within(
                step,
                src,
                i,
                n + 1,
            ) by {
                lemma_bits128(m, a | b | c | d, i);
                lemma_bits128(a | b | c, d, i);
                lemma_bits128(a | b, c, i);
                lemma_bits128(a, b, i);
                lemma_shift128(m & masks.north, i);
                lemma_shift128(m & masks.south, i);
                lemma_shift128(m & masks.west, i);
                lemma_shift128(m & masks.east, i);
                if i + 9 < 128 {
                    lemma_bits128(m, masks.north, i + 9);
                }
                if i >= 9 {
                    lemma_bits128(m, masks.south, i - 9);
                }
                if i + 1 < 128 {
                    lemma_bits128(m, masks.west, i + 1);
                }
                if i >= 1 {
                    lemma_bits128(m, masks.east, i - 1);
                }
                assert((n + 1 - 1) as nat == n);
            }
        }
    }
    r
}

/// Whether the flood from `src` arrives at a square of `target`.
pub fn flood_meets(masks: &DirMasks, src: u128, target: u128) -> (r: bool)
    requires
        masks.wf(),
        on_board(target),
    ensures
        r == (exists|i: int|
            0 <= i < 81 && bit128(target, i) && #[trigger] reach(masks.steps(), squares(src), i)),
{
    let ghost step = masks.steps();
    let ghost from = squares(src);
    let mut seen: u128 = src;
    let ghost mut n: nat = 0;
    assert(is_within(seen, step, from, 0));
    loop
        invariant
            masks.wf(),
            on_board(target),
            step == masks.steps(),
            from == squares(src),
            is_within(seen, step, from, n),
        decreases u128::MAX - seen,
    {
        if seen & target != 0 {
            proof {
                let k = lemma_common_bit(seen, target);
                assert(within(step, from, k, n));
                assert(reach(step, from, k));
            }
            return true;
        }
        let next: u128 = spread(seen, masks);
        assert(is_within(next, step, from, n + 1));
        if next == seen {
            proof {
                assert forall|i: int| 0 <= i < 81 && bit128(target, i) implies !(#[trigger] reach(
                    step,
                    from,
                    i,
                )) by {
                    lemma_rest(*masks, src, seen, n, i);
                    lemma_bits128(seen, target, i);
                    lemma_bits128(0, 0, i);
                }
            }
            return false;
        }
        seen = next;
        proof {
            n = n + 1;
        }
    }
}

/// Everything that can be reached from `src`.
pub fn flood_all(masks: &DirMasks, src: u128) -> (r: u128)
    requires
        masks.wf(),
    ensures
        forall|i: int|
            0 <= i < 81 ==> bit128(r, i) == #[trigger] reach(masks.steps(), squares(src), i),
{
    let ghost step = masks.steps();
    let ghost from = squares(src);
    let mut seen: u128 = src;
    let ghost mut n: nat = 0;
    assert(is_within(seen, step, from, 0));
    loop
        invariant
            masks.wf(),
            step == masks.steps(),
            from == squares(src),
            is_within(seen, step, from, n),
        decreases u128::MAX - seen,
    {
        let next: u128 = spread(seen, masks);
        assert(is_within(next, step, from, n + 1));
        if next == seen {
            proof {
                assert forall|i: int| 0 <= i < 81 implies bit128(seen, i) == #[trigger] reach(
                    step,
                    from,
                    i,
                ) by {
                    lemma_rest(*masks, src, seen, n, i);
                }
            }
            return seen;
        }
        seen = next;
        proof {
            n = n + 1;
        }
    }
}

/// Two words that share a bit share a square.
proof fn lemma_common_bit(a: u128, b: u128) -> (k: int)
    requires
        a & b != 0,
        on_board(b),
    ensures
        0 <= k < 81,
        bit128(a, k),
        bit128(b, k),
{
    let x = a & b;
    if forall|i: int| 0 <= i < 128 ==> !bit128(x, i) {
        lemma_zero128(x);
    }
    let k = choose|k: int| 0 <= k < 128 && bit128(x, k);
    lemma_bits128(a, b, k);
    k
}

proof fn bv_halves(x: u128, j: u64)
    by (bit_vector)
    requires
        j < 64,
    ensures
        ((x as u64) >> j) & 1 == 1 <==> (x >> (j as u128)) & 1 == 1,
        (((x >> 64) as u64) >> j) & 1 == 1 <==> (x >> ((j + 64) as u128)) & 1 == 1,
        (x as u64) == 0 && ((x >> 64) as u64) == 0 ==> x == 0,
        x >> 64 <= 0xFFFF_FFFF_FFFF_FFFFu128,
{
}

/// A flood word as two halves.
pub proof fn lemma_halves(x: u128, i: int)
    requires
        0 <= i < 64,
    ensures
        bit64(x as u64, i) == bit128(x, i),
        bit64((x >> 64) as u64, i) == bit128(x, i + 64),
        (x as u64) == 0 && ((x >> 64) as u64) == 0 ==> x == 0,
        x >> 64 <= u64::MAX,
{
    bv_halves(x, i as u64);
}

/// A word without bits is zero.
pub proof fn lemma_zero128(x: u128)
    requires
        forall|i: int| 0 <= i < 128 ==> !bit128(x, i),
    ensures
        x == 0,
{
    let lo = x as u64;
    let hi = (x >> 64) as u64;
    assert forall|i: int| 0 <= i < 64 implies !bit64(lo, i) && !bit64(hi, i) by {
        bv_halves(x, i as u64);
        assert(!bit128(x, i));
        assert(!bit128(x, i + 64));
    }
    lemma_empty64(lo);
    lemma_empty64(hi);
    bv_halves(x, 0);
}

/// The masks of a step relation reach what the relation reaches.
pub proof fn lemma_masks_reach(masks: DirMasks, step: StepRel, from: Squares, m: u128, i: int)
    requires
        masks.allows(step),
        forall|i: int| #[trigger] from(i) == squares(m)(i),
    ensures
        reach(step, from, i) == reach(masks.steps(), squares(m), i),
        dist(step, from, i) == dist(masks.steps(), squares(m), i),
{
    assert forall|sq: int, d: int| #[trigger] step(sq, d) == masks.steps()(sq, d) by {
        assert(masks.steps()(sq, d) == step(sq, d));
    }
    lemma_reach_same(step, masks.steps(), from, squares(m), i);
}

/// When spreading adds nothing, the set is everything that can be reached.
proof fn lemma_rest(masks: DirMasks, src: u128, seen: u128, n: nat, i: int)
    requires
        is_within(seen, masks.steps(), squares(src), n),
        is_within(seen, masks.steps(), squares(src), n + 1),
        0 <= i < 81,
    ensures
        reach(masks.steps(), squares(src), i) == bit128(seen, i),
{
    let step = masks.steps();
    let from = squares(src);
    assert forall|sq: int| 0 <= sq < 81 && #[trigger] within(step, from, sq, n + 1) implies within(
        step,
        from,
        sq,
        n,
    ) by {
        assert(bit128(seen, sq));
    }
    lemma_stable_reach(step, from, n, i);
}

/// The word of a player's far row.
pub fn goal_square_mask(player: Player) -> (m: u128)
    ensures
        on_board(m),
        forall|i: int| #[trigger] squares(m)(i) == goal_squares(player)(i),
{
    let m: u128 = match player {
        Player::One => 0x1FFu128 << 72,
        Player::Two => 0x1FFu128,
    };
    proof {
        assert forall|i: int| 0 <= i < 128 implies bit128(m, i) == goal_squares(player)(i) by {
            bv_goal(i as u128);
        }
    }
    m
}

proof fn bv_goal(j: u128)
    by (bit_vector)
    requires
        j < 128,
    ensures
        (0x1FFu128 >> j) & 1 == 1 <==> j < 9,
        ((0x1FFu128 << 72) >> j) & 1 == 1 <==> 72 <= j < 81,
{
}

/// The word of one square.
pub proof fn lemma_only(at: int)
    requires
        0 <= at < 81,
    ensures
        on_board(1u128 << (at as u128)),
        forall|i: int| #[trigger] squares(1u128 << (at as u128))(i) == only(at)(i),
{
    let m = 1u128 << (at as u128);
    assert forall|i: int| 0 <= i < 128 implies bit128(m, i) == (i == at) by {
        lemma_one128(0, at, i);
    }
}

} // verus!
