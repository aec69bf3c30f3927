//! Integers as sets of bits.
//!
//! Contracts elsewhere speak of `bit64` and `bit128`; the lemmas here say how
//! the machine operators act on them.

use vstd::prelude::*;

verus! {

/// Bit `i` of `m` is set.
pub open spec fn bit64(m: u64, i: int) -> bool {
    (m >> (i as u64)) & 1 == 1
}

/// Bit `i` of `m` is set.
pub open spec fn bit128(m: u128, i: int) -> bool {
    (m >> (i as u128)) & 1 == 1
}

/// The integers of `lo..hi` that satisfy `p`, in increasing order.
pub open spec fn ascending(p: spec_fn(int) -> bool, lo: int, hi: int) -> Seq<int>
    decreases hi - lo,
{
    if lo >= hi {
        Seq::empty()
    } else if p(lo) {
        seq![lo] + ascending(p, lo + 1, hi)
    } else {
        ascending(p, lo + 1, hi)
    }
}

/// Two predicates that agree on `lo..hi` list the same integers.
pub proof fn lemma_ascending_same(p: spec_fn(int) -> bool, q: spec_fn(int) -> bool, lo: int, hi: int)
    requires
        forall|i: int| lo <= i < hi ==> #[trigger] p(i) == q(i),
    ensures
        ascending(p, lo, hi) == ascending(q, lo, hi),
    decreases hi - lo,
{
    if lo < hi {
        lemma_ascending_same(p, q, lo + 1, hi);
    }
}

/// A stretch without members can be skipped.
pub proof fn lemma_ascending_skip(p: spec_fn(int) -> bool, lo: int, mid: int, hi: int)
    requires
        lo <= mid <= hi,
        forall|i: int| lo <= i < mid ==> !(#[trigger] p(i)),
    ensures
        ascending(p, lo, hi) == ascending(p, mid, hi),
    decreases mid - lo,
{
    if lo < mid {
        lemma_ascending_skip(p, lo + 1, mid, hi);
    }
}

/// Splitting the range splits the list.
pub proof fn lemma_ascending_split(p: spec_fn(int) -> bool, lo: int, mid: int, hi: int)
    requires
        lo <= mid <= hi,
    ensures
        ascending(p, lo, hi) == ascending(p, lo, mid) + ascending(p, mid, hi),
    decreases mid - lo,
{
    if lo < mid {
        lemma_ascending_split(p, lo + 1, mid, hi);
        assert(ascending(p, lo, hi) =~= ascending(p, lo, mid) + ascending(p, mid, hi));
    } else {
        assert(ascending(p, lo, hi) =~= ascending(p, lo, mid) + ascending(p, mid, hi));
    }
}

/// The list holds exactly the members, has no repetition and is increasing.
pub proof fn lemma_ascending_members(p: spec_fn(int) -> bool, lo: int, hi: int)
    requires
        lo <= hi,
    ensures
        ascending(p, lo, hi).len() <= hi - lo,
        forall|k: int| #![trigger ascending(p, lo, hi)[k]] 0 <= k < ascending(p, lo, hi).len() ==> {
            let x = ascending(p, lo, hi)[k];
            lo <= x < hi && p(x)
        },
        forall|i: int, j: int|
            0 <= i < j < ascending(p, lo, hi).len() ==> ascending(p, lo, hi)[i] < ascending(
                p,
                lo,
                hi,
            )[j],
        forall|x: int| lo <= x < hi && p(x) ==> #[trigger] ascending(p, lo, hi).contains(x),
    decreases hi - lo,
{
    let s = ascending(p, lo, hi);
    if lo < hi {
        let t = ascending(p, lo + 1, hi);
        lemma_ascending_members(p, lo + 1, hi);
        if p(lo) {
            assert(s =~= seq![lo] + t);
            assert forall|x: int| lo <= x < hi && p(x) implies #[trigger] s.contains(x) by {
                if x == lo {
                    assert(s[0] == lo);
                } else {
                    assert(t.contains(x));
                    let k = choose|k: int| 0 <= k < t.len() && t[k] == x;
                    assert(s[k + 1] == x);
                }
            }
        } else {
            assert(s == t);
            assert forall|x: int| lo <= x < hi && p(x) implies #[trigger] s.contains(x) by {
                assert(t.contains(x));
            }
        }
    }
}

proof fn bv64(m: u64, n: u64, j: u64, k: u64)
    by (bit_vector)
    requires
        j < 64,
        k < 64,
    ensures
        ((m | n) >> j) & 1 == 1 <==> ((m >> j) & 1 == 1 || (n >> j) & 1 == 1),
        ((m & n) >> j) & 1 == 1 <==> ((m >> j) & 1 == 1 && (n >> j) & 1 == 1),
        ((m ^ n) >> j) & 1 == 1 <==> ((m >> j) & 1 == 1) != ((n >> j) & 1 == 1),
        ((!m) >> j) & 1 == 1 <==> !((m >> j) & 1 == 1),
        ((1u64 << k) >> j) & 1 == 1 <==> j == k,
        !((0u64 >> j) & 1 == 1),
        m ^ n == 0 ==> m == n,
{
}

/// Bitwise or, and, xor and not, one bit at a time.
pub proof fn lemma_bits64(m: u64, n: u64, i: int)
    requires
        0 <= i < 64,
    ensures
        bit64(m | n, i) == (bit64(m, i) || bit64(n, i)),
        bit64(m & n, i) == (bit64(m, i) && bit64(n, i)),
        bit64(m ^ n, i) == (bit64(m, i) != bit64(n, i)),
        bit64(!m, i) == !bit64(m, i),
        !bit64(0, i),
{
    bv64(m, n, i as u64, 0);
}

/// A single bit.
pub proof fn lemma_one64(k: int, i: int)
    requires
        0 <= k < 64,
        0 <= i < 64,
    ensures
        bit64(1u64 << (k as u64), i) == (i == k),
{
    bv64(0, 0, i as u64, k as u64);
}

proof fn bv64_shift(m: u64, s: u64, j: u64, k: u64)
    by (bit_vector)
    requires
        s < 64,
        j < 64,
        k < 64,
    ensures
        j < s ==> !(((m << s) >> j) & 1 == 1),
        j == k + s ==> (((m << s) >> j) & 1 == 1 <==> (m >> k) & 1 == 1),
        k == j + s ==> (((m >> s) >> j) & 1 == 1 <==> (m >> k) & 1 == 1),
        j + s >= 64 ==> !(((m >> s) >> j) & 1 == 1),
{
}

/// Shifting left and right moves the bits.
pub proof fn lemma_shift64(m: u64, s: u64, i: int)
    requires
        s < 64,
        0 <= i < 64,
    ensures
        bit64(m << s, i) == (i >= s && bit64(m, i - s)),
        bit64(m >> s, i) == (i + s < 64 && bit64(m, i + s)),
{
    let a: u64 = if i >= s { (i - s) as u64 } else { 0 };
    let b: u64 = if i + s < 64 { (i + s) as u64 } else { 0 };
    bv64_shift(m, s, i as u64, a);
    bv64_shift(m, s, i as u64, b);
}

/// A word is determined by its bits.
pub proof fn lemma_ext64(m: u64, n: u64)
    requires
        forall|i: int| 0 <= i < 64 ==> bit64(m, i) == bit64(n, i),
    ensures
        m == n,
{
    let x = m ^ n;
    vstd::std_specs::bits::axiom_u64_trailing_zeros(x);
    bv64(m, n, 0, 0);
    if x != 0 {
        let k = vstd::std_specs::bits::u64_trailing_zeros(x) as int;
        lemma_bits64(m, n, k);
        assert(bit64(m, k) == bit64(n, k));
        assert(bit64(x, k));
    }
}

proof fn bv64_clear_lowest(m: u64, k: u64, j: u64)
    by (bit_vector)
    requires
        k < 64,
        j < 64,
        m != 0,
        (m >> k) & 1 == 1,
        m << ((64 - k) as u64) == 0 || k == 0,
    ensures
        ((m & ((m - 1) as u64)) >> j) & 1 == 1 <==> ((m >> j) & 1 == 1 && j != k),
{
}

/// The lowest set bit of a non-empty set, and the set without it.
pub fn pop_lowest(m: u64) -> (r: (u32, u64))
    requires
        m != 0,
    ensures
        r.0 < 64,
        bit64(m, r.0 as int),
        forall|i: int| 0 <= i < r.0 ==> !bit64(m, i),
        forall|i: int| 0 <= i < 64 ==> bit64(r.1, i) == (bit64(m, i) && i != r.0),
{
    let k: u32 = m.trailing_zeros();
    let rest: u64 = m & (m - 1);
    proof {
        vstd::std_specs::bits::axiom_u64_trailing_zeros(m);
        assert forall|i: int| 0 <= i < k implies !bit64(m, i) by {
            assert((m >> (i as u64)) & 1u64 == 0u64);
        }
        assert forall|i: int| 0 <= i < 64 implies bit64(rest, i) == (bit64(m, i) && i != k) by {
            bv64_clear_lowest(m, k as u64, i as u64);
        }
    }
    (k, rest)
}

/// Popping the lowest bit pops the head of the list of members.
pub proof fn lemma_pop_ascending(m: u64, k: int, rest: u64)
    requires
        0 <= k < 64,
        bit64(m, k),
        forall|i: int| 0 <= i < k ==> !bit64(m, i),
        forall|i: int| 0 <= i < 64 ==> bit64(rest, i) == (bit64(m, i) && i != k),
    ensures
        ascending(|i: int| bit64(m, i), 0, 64) == seq![k] + ascending(|i: int| bit64(rest, i), 0, 64),
{
    let p = |i: int| bit64(m, i);
    let q = |i: int| bit64(rest, i);
    lemma_ascending_skip(p, 0, k, 64);
    lemma_ascending_skip(q, 0, k + 1, 64);
    lemma_ascending_same(p, q, k + 1, 64);
}

/// A word without bits is zero.
pub proof fn lemma_empty64(m: u64)
    ensures
        m == 0 <==> ascending(|i: int| bit64(m, i), 0, 64).len() == 0,
        m == 0 <==> (forall|i: int| 0 <= i < 64 ==> !bit64(m, i)),
{
    let p = |i: int| bit64(m, i);
    if m == 0 {
        assert forall|i: int| 0 <= i < 64 implies !bit64(m, i) by {
            lemma_bits64(m, 0, i);
        }
        lemma_ascending_skip(p, 0, 64, 64);
    } else {
        vstd::std_specs::bits::axiom_u64_trailing_zeros(m);
        let k = vstd::std_specs::bits::u64_trailing_zeros(m) as int;
        assert(bit64(m, k));
        lemma_ascending_members(p, 0, 64);
        assert(ascending(p, 0, 64).contains(k));
    }
}

proof fn bv128(m: u128, n: u128, j: u128, k: u128)
    by (bit_vector)
    requires
        j < 128,
        k < 128,
    ensures
        ((m | n) >> j) & 1 == 1 <==> ((m >> j) & 1 == 1 || (n >> j) & 1 == 1),
        ((m & n) >> j) & 1 == 1 <==> ((m >> j) & 1 == 1 && (n >> j) & 1 == 1),
        ((!m) >> j) & 1 == 1 <==> !((m >> j) & 1 == 1),
        ((1u128 << k) >> j) & 1 == 1 <==> j == k,
        !((0u128 >> j) & 1 == 1),
        (m | n) >= m,
        (m & (1u128 << k)) != 0 <==> (m >> k) & 1 == 1,
        (1u128 << k) & m == (if (m >> k) & 1 == 1 { 1u128 << k } else { 0u128 }),
        (1u128 << k) != 0,
        j != k ==> (1u128 << j) != (1u128 << k),
{
}

/// Bitwise or, and and not, one bit at a time.
pub proof fn lemma_bits128(m: u128, n: u128, i: int)
    requires
        0 <= i < 128,
    ensures
        bit128(m | n, i) == (bit128(m, i) || bit128(n, i)),
        bit128(m & n, i) == (bit128(m, i) && bit128(n, i)),
        bit128(!m, i) == !bit128(m, i),
        !bit128(0, i),
        (m | n) >= m,
        (m & (1u128 << (i as u128))) != 0 <==> bit128(m, i),
{
    bv128(m, n, i as u128, i as u128);
}

/// A single bit, alone and under a mask.
pub proof fn lemma_one128(m: u128, k: int, i: int)
    requires
        0 <= k < 128,
        0 <= i < 128,
    ensures
        bit128(1u128 << (k as u128), i) == (i == k),
        (1u128 << (k as u128)) & m == (if bit128(m, k) { 1u128 << (k as u128) } else { 0u128 }),
        1u128 << (k as u128) != 0,
        i != k ==> 1u128 << (i as u128) != 1u128 << (k as u128),
{
    bv128(m, m, i as u128, k as u128);
}

proof fn bv128_shift(m: u128, j: u128, k: u128)
    by (bit_vector)
    requires
        j < 128,
        k < 128,
    ensures
        j < 1 ==> !(((m << 1) >> j) & 1 == 1),
        j == k + 1 ==> (((m << 1) >> j) & 1 == 1 <==> (m >> k) & 1 == 1),
        k == j + 1 ==> (((m >> 1) >> j) & 1 == 1 <==> (m >> k) & 1 == 1),
        j == 127 ==> !(((m >> 1) >> j) & 1 == 1),
        j < 9 ==> !(((m << 9) >> j) & 1 == 1),
        j == k + 9 ==> (((m << 9) >> j) & 1 == 1 <==> (m >> k) & 1 == 1),
        k == j + 9 ==> (((m >> 9) >> j) & 1 == 1 <==> (m >> k) & 1 == 1),
        j >= 119 ==> !(((m >> 9) >> j) & 1 == 1),
{
}

/// Shifting by one column or one row moves the bits.
pub proof fn lemma_shift128(m: u128, i: int)
    requires
        0 <= i < 128,
    ensures
        bit128(m << 1, i) == (i >= 1 && bit128(m, i - 1)),
        bit128(m >> 1, i) == (i + 1 < 128 && bit128(m, i + 1)),
        bit128(m << 9, i) == (i >= 9 && bit128(m, i - 9)),
        bit128(m >> 9, i) == (i + 9 < 128 && bit128(m, i + 9)),
{
    let j = i as u128;
    bv128_shift(m, j, if i >= 1 { (i - 1) as u128 } else { 0 });
    bv128_shift(m, j, if i + 1 < 128 { (i + 1) as u128 } else { 0 });
    bv128_shift(m, j, if i >= 9 { (i - 9) as u128 } else { 0 });
    bv128_shift(m, j, if i + 9 < 128 { (i + 9) as u128 } else { 0 });
}

proof fn bv128_shift_one(k: u128)
    by (bit_vector)
    requires
        k < 119,
    ensures
        (1u128 << k) << 1 == 1u128 << ((k + 1) as u128),
        (1u128 << ((k + 1) as u128)) >> 1 == 1u128 << k,
        (1u128 << k) << 9 == 1u128 << ((k + 9) as u128),
        (1u128 << ((k + 9) as u128)) >> 9 == 1u128 << k,
        0u128 << 1 == 0,
        0u128 << 9 == 0,
        0u128 >> 1 == 0,
        0u128 >> 9 == 0,
{
}

/// Shifting a single square gives the neighbouring square, or nothing of nothing.
pub proof fn lemma_shift_one128(k: int)
    requires
        0 <= k < 119,
    ensures
        (1u128 << (k as u128)) << 1 == 1u128 << ((k + 1) as u128),
        (1u128 << ((k + 1) as u128)) >> 1 == 1u128 << (k as u128),
        (1u128 << (k as u128)) << 9 == 1u128 << ((k + 9) as u128),
        (1u128 << ((k + 9) as u128)) >> 9 == 1u128 << (k as u128),
        0u128 << 1 == 0,
        0u128 << 9 == 0,
        0u128 >> 1 == 0,
        0u128 >> 9 == 0,
{
    bv128_shift_one(k as u128);
}

} // verus!
