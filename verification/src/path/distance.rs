//! Breadth-first distance fields.

use vstd::prelude::*;

use crate::path::flood::{goal_square_mask, is_within, lemma_masks_reach, lemma_only, spread, squares};
use crate::path::graph::{
    dist, goal_squares, is_dist, lemma_dist_is, lemma_reach_same, lemma_stable_reach, lemma_within_mono,
    only, reach, within, Squares, StepRel,
};
use crate::path::masks::DirMasks;
use crate::position::board::Player;
use crate::util::bits::bit128;

verus! {

/// The field holds the distance of every square from `src`, 255 where there is no way.
pub open spec fn is_field(out: Seq<u8>, step: StepRel, src: Squares) -> bool {
    &&& out.len() == 81
    &&& forall|sq: int| 0 <= sq < 81 ==> #[trigger] out[sq] == dist(step, src, sq)
    &&& forall|sq: int| 0 <= sq < 81 && #[trigger] out[sq] != 255 ==> out[sq] <= 80
    &&& forall|sq: int| 0 <= sq < 81 ==> (#[trigger] out[sq] != 255) == reach(step, src, sq)
}

/// How many of the first `k` entries are 255.
spec fn unset(s: Seq<u8>, k: int) -> nat
    decreases k,
{
    if k <= 0 {
        0
    } else if s[k - 1] == 255 {
        unset(s, k - 1) + 1
    } else {
        unset(s, k - 1)
    }
}

proof fn lemma_unset_bound(s: Seq<u8>, k: int)
    requires
        0 <= k,
    ensures
        unset(s, k) <= k,
    decreases k,
{
    if k > 0 {
        lemma_unset_bound(s, k - 1);
    }
}

proof fn lemma_unset_update(s: Seq<u8>, i: int, v: u8, k: int)
    requires
        0 <= i < s.len(),
        0 <= k <= s.len(),
        s[i] == 255,
        v != 255,
    ensures
        unset(s, k) == unset(s.update(i, v), k) + (if i < k {
            1int
        } else {
            0int
        }),
    decreases k,
{
    if k > 0 {
        lemma_unset_update(s, i, v, k - 1);
    }
}

/// Fills `out` with the distances from the squares of `src`.
pub fn fill_dist(masks: &DirMasks, src: u128, out: &mut [u8; 81])
    requires
        masks.wf(),
    ensures
        is_field(final(out)@, masks.steps(), squares(src)),
{
    let ghost step = masks.steps();
    let ghost from = squares(src);
    *out = [255u8; 81];
    let mut seen: u128 = src;
    let mut n: u8 = 0;
    let mut sq: u8 = 0;
    proof {
        lemma_unset_bound(out@, 81);
    }
    while sq < 81
        invariant
            sq <= 81,
            from == squares(src),
            forall|i: int|
                0 <= i < 81 ==> #[trigger] out[i] == (if i < sq && bit128(src, i) {
                    0u8
                } else {
                    255u8
                }),
            unset(out@, 81) <= 81,
            forall|i: int| 0 <= i < sq && #[trigger] bit128(src, i) ==> unset(out@, 81) <= 80,
        decreases 81 - sq,
    {
        if (src >> (sq as u128)) & 1 == 1 {
            proof {
                lemma_unset_update(out@, sq as int, 0, 81);
            }
            out[sq as usize] = 0;
        }
        sq = sq + 1;
    }
    assert(is_within(seen, step, from, 0));
    let ghost some = exists|i: int| 0 <= i < 81 && #[trigger] bit128(src, i);
    loop
        invariant
            masks.wf(),
            step == masks.steps(),
            from == squares(src),
            some == (exists|i: int| 0 <= i < 81 && #[trigger] bit128(src, i)),
            is_within(seen, step, from, n as nat),
            forall|i: int| 0 <= i < 81 ==> (#[trigger] out[i] != 255) == bit128(seen, i),
            forall|i: int|
                0 <= i < 81 && #[trigger] out[i] != 255 ==> out[i] <= n && is_dist(
                    step,
                    from,
                    i,
                    out[i] as nat,
                ),
            n <= 80,
            some ==> n + unset(out@, 81) <= 80,
            !some ==> n == 0,
        decreases unset(out@, 81),
    {
        let next: u128 = spread(seen, masks);
        assert(is_within(next, step, from, n as nat + 1));
        proof {
            if n == 0 {
                lemma_no_source(*masks, src, next);
            }
        }
        let mut added: bool = false;
        let ghost before = out@;
        let mut sq: u8 = 0;
        while sq < 81
            invariant
                sq <= 81,
                n <= 80,
                before.len() == 81,
                !some ==> forall|i: int| 0 <= i < 81 ==> !(#[trigger] bit128(next, i)),
                forall|i: int|
                    0 <= i < 81 ==> #[trigger] out[i] == (if i < sq && before[i] == 255 && bit128(
                        next,
                        i,
                    ) {
                        (n + 1) as u8
                    } else {
                        before[i]
                    }),
                !added ==> out@ == before,
                added ==> unset(out@, 81) < unset(before, 81) && some,
                !added ==> forall|i: int|
                    0 <= i < sq && before[i] == 255 ==> !(#[trigger] bit128(next, i)),
            decreases 81 - sq,
        {
            if (next >> (sq as u128)) & 1 == 1 && out[sq as usize] == 255 {
                proof {
                    assert(bit128(next, sq as int));
                    lemma_unset_update(out@, sq as int, (n + 1) as u8, 81);
                }
                out[sq as usize] = n + 1;
                added = true;
            }
            sq = sq + 1;
        }
        if !added {
            proof {
                assert forall|i: int|
                    0 <= i < 81 && #[trigger] within(step, from, i, n as nat + 1) implies within(
                    step,
                    from,
                    i,
                    n as nat,
                ) by {
                    assert(bit128(next, i));
                    assert(before[i] != 255);
                }
                assert forall|i: int| 0 <= i < 81 implies #[trigger] out[i] == dist(step, from, i)
                    && (out[i] != 255) == reach(step, from, i) by {
                    lemma_stable_reach(step, from, n as nat, i);
                    if out[i] != 255 {
                        lemma_dist_is(step, from, i, out[i] as nat);
                    }
                }
            }
            return;
        }
        seen = next;
        n = n + 1;
        proof {
            assert forall|i: int| 0 <= i < 81 && #[trigger] out[i] != 255 implies out[i] <= n
                && is_dist(step, from, i, out[i] as nat) by {
                assert(before[i] != 255 || bit128(next, i));
                if before[i] == 255 {
                    assert(!within(step, from, i, (n - 1) as nat));
                }
            }
            assert forall|i: int| 0 <= i < 81 implies (#[trigger] out[i] != 255) == bit128(
                next,
                i,
            ) by {
                if before[i] != 255 {
                    assert(within(step, from, i, (n - 1) as nat));
                    lemma_within_mono(step, from, i, (n - 1) as nat, n as nat);
                }
            }
        }
    }
}

/// Nothing is reached from nowhere.
proof fn lemma_no_source(masks: DirMasks, src: u128, next: u128)
    requires
        is_within(next, masks.steps(), squares(src), 1),
    ensures
        (exists|i: int| 0 <= i < 81 && #[trigger] bit128(src, i)) || forall|i: int|
            0 <= i < 81 ==> !(#[trigger] bit128(next, i)),
{
    let step = masks.steps();
    let from = squares(src);
    if !(exists|i: int| 0 <= i < 81 && #[trigger] bit128(src, i)) {
        assert forall|i: int| 0 <= i < 81 implies !(#[trigger] bit128(next, i)) by {
            assert(within(step, from, i, 1) == bit128(next, i));
            assert(!within(step, from, i, 0));
            assert(step(i + 9, 0) ==> !within(step, from, i + 9, 0));
            assert(step(i - 9, 1) ==> !within(step, from, i - 9, 0));
            assert(step(i + 1, 2) ==> !within(step, from, i + 1, 0));
            assert(step(i - 1, 3) ==> !within(step, from, i - 1, 0));
        }
    }
}

/// Distances from one square under the open steps of `masks`.
pub fn fill_dist_from_sq(sq: u8, masks: DirMasks, out: &mut [u8; 81])
    requires
        masks.wf(),
        sq < 81,
    ensures
        is_field(final(out)@, masks.steps(), only(sq as int)),
{
    fill_dist(&masks, 1u128 << (sq as u128), out);
    proof {
        lemma_only(sq as int);
        lemma_field_same(out@, masks, 1u128 << (sq as u128), only(sq as int));
    }
}

/// Distances to a player's far row under the open steps of `masks`.
pub fn fill_dist_to_goal_row(player: Player, masks: DirMasks, out: &mut [u8; 81])
    requires
        masks.wf(),
    ensures
        is_field(final(out)@, masks.steps(), goal_squares(player)),
{
    let m: u128 = goal_square_mask(player);
    fill_dist(&masks, m, out);
    proof {
        lemma_field_same(out@, masks, m, goal_squares(player));
    }
}

proof fn lemma_field_same(out: Seq<u8>, masks: DirMasks, m: u128, src: Squares)
    requires
        masks.wf(),
        is_field(out, masks.steps(), squares(m)),
        forall|i: int| #[trigger] squares(m)(i) == src(i),
    ensures
        is_field(out, masks.steps(), src),
{
    assert forall|sq: int| 0 <= sq < 81 implies #[trigger] out[sq] == dist(masks.steps(), src, sq)
        && (out[sq] != 255) == reach(masks.steps(), src, sq) by {
        assert forall|i: int| #[trigger] src(i) == squares(m)(i) by {
            assert(squares(m)(i) == src(i));
        }
        lemma_masks_reach(masks, masks.steps(), src, m, sq);
    }
}

/// A field under masks is a field under the steps they allow.
pub proof fn lemma_field_steps(out: Seq<u8>, masks: DirMasks, step: StepRel, src: Squares)
    requires
        masks.allows(step),
        is_field(out, masks.steps(), src),
    ensures
        is_field(out, step, src),
{
    assert forall|sq: int| 0 <= sq < 81 implies #[trigger] out[sq] == dist(step, src, sq) && (
    out[sq] != 255) == reach(step, src, sq) by {
        assert forall|s: int, d: int| #[trigger] step(s, d) == masks.steps()(s, d) by {
            assert(masks.steps()(s, d) == step(s, d));
        }
        lemma_reach_same(step, masks.steps(), src, src, sq);
    }
}

} // verus!
