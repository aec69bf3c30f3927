//! Powers of two.

use vstd::prelude::*;

verus! {

/// Two to the power of `n`.
pub open spec fn two_pow(n: nat) -> nat
    decreases n,
{
    if n == 0 {
        1
    } else {
        2 * two_pow((n - 1) as nat)
    }
}

/// A larger power is a multiple of a smaller one.
pub proof fn lemma_two_pow_divides(a: nat, b: nat)
    requires
        a <= b,
    ensures
        two_pow(b) == two_pow(a) * two_pow((b - a) as nat),
        two_pow(a) >= 1,
        two_pow(a) <= two_pow(b),
    decreases b - a, a,
{
    if a < b {
        lemma_two_pow_divides(a, (b - 1) as nat);
        let x = two_pow(a);
        let y = two_pow((b - 1 - a) as nat);
        assert(two_pow((b - a) as nat) == 2 * y);
        assert(2 * (x * y) == x * (2 * y)) by (nonlinear_arith);
    } else {
        assert(two_pow(a) * 1 == two_pow(a));
        if a > 0 {
            lemma_two_pow_divides((a - 1) as nat, (a - 1) as nat);
        }
    }
}

/// Powers that fit in 32 bits.
pub proof fn lemma_two_pow_small(n: nat)
    requires
        n <= 31,
    ensures
        1 <= two_pow(n) <= 0x8000_0000,
        n <= 27 ==> two_pow(n) <= 0x800_0000,
{
    lemma_two_pow_divides(n, 31);
    assert(two_pow(31) == 0x8000_0000) by {
        reveal_with_fuel(two_pow, 32);
    }
    if n <= 27 {
        lemma_two_pow_divides(n, 27);
        assert(two_pow(27) == 0x800_0000) by {
            reveal_with_fuel(two_pow, 28);
        }
    }
}

/// The remainder by a larger power keeps the remainder by a smaller one.
pub proof fn lemma_two_pow_mod(x: int, a: nat, b: nat)
    requires
        a <= b,
        x >= 0,
    ensures
        (x % two_pow(b) as int) % two_pow(a) as int == x % two_pow(a) as int,
{
    lemma_two_pow_divides(a, b);
    lemma_two_pow_divides((b - a) as nat, (b - a) as nat);
    vstd::arithmetic::div_mod::lemma_mod_mod(
        x,
        two_pow(a) as int,
        two_pow((b - a) as nat) as int,
    );
}

/// Two to the power of `n`.
pub fn power_of_two(n: usize) -> (r: usize)
    requires
        n <= 31,
    ensures
        r == two_pow(n as nat),
        1 <= r <= 0x8000_0000,
{
    let mut r: usize = 1;
    let mut i: usize = 0;
    while i < n
        invariant
            i <= n <= 31,
            r == two_pow(i as nat),
        decreases n - i,
    {
        proof {
            lemma_two_pow_small((i + 1) as nat);
        }
        r = r * 2;
        i = i + 1;
    }
    proof {
        lemma_two_pow_small(n as nat);
    }
    r
}

} // verus!
