//! Base-generic digit arithmetic.

use vstd::arithmetic::power::*;
use vstd::arithmetic::power2::*;
use vstd::prelude::*;

verus! {

/// The bases in which notable values are constructed and rendered.
pub open spec fn supported_base(base: u8) -> bool {
    base == 10 || base == 16
}

/// Number of digits of `n` in `base`; zero is written with no digits.
pub open spec fn num_digits(n: nat, base: nat) -> nat
    decreases n,
    via num_digits_decreases
{
    if n == 0 || base < 2 {
        0
    } else {
        1 + num_digits(n / base, base)
    }
}

#[via_fn]
proof fn num_digits_decreases(n: nat, base: nat) {
    if !(n == 0 || base < 2) {
        assert(n / base < n) by (nonlinear_arith)
            requires
                n >= 1,
                base >= 2,
        ;
    }
}

/// The leading digit of `n` in `base`.
pub open spec fn leading_digit(n: nat, base: nat) -> int {
    n as int / pow(base as int, (num_digits(n, base) - 1) as nat)
}

/// For `n >= 1`: `base^(k-1) <= n < base^k`, where `k` is the digit count.
pub proof fn lemma_digit_bounds(n: nat, base: nat)
    requires
        n >= 1,
        base >= 2,
    ensures
        num_digits(n, base) >= 1,
        pow(base as int, (num_digits(n, base) - 1) as nat) <= n,
        n < pow(base as int, num_digits(n, base)),
    decreases n,
{
    reveal(pow);
    let q = n / base;
    if q == 0 {
        assert(num_digits(q, base) == 0);
        assert(pow(base as int, 0) == 1);
        assert(pow(base as int, 1) == base * pow(base as int, 0));
        assert(n < base) by (nonlinear_arith)
            requires
                q == n / base,
                q == 0,
                base >= 2,
        ;
    } else {
        assert(q < n) by (nonlinear_arith)
            requires
                q == n / base,
                n >= 1,
                base >= 2,
        ;
        lemma_digit_bounds(q, base);
        let k = num_digits(q, base);
        assert(num_digits(n, base) == k + 1);
        let lo = pow(base as int, (k - 1) as nat);
        let hi = pow(base as int, k);
        assert(pow(base as int, k) == base * pow(base as int, (k - 1) as nat));
        assert(pow(base as int, k + 1) == base * pow(base as int, k));
        assert(hi <= n) by (nonlinear_arith)
            requires
                q == n / base,
                lo <= q,
                hi == base * lo,
                base >= 2,
        ;
        assert(n < base * hi) by (nonlinear_arith)
            requires
                q == n / base,
                q < hi,
                base >= 2,
        ;
    }
}

/// For `n >= 1` the leading digit is a nonzero digit of `base`.
pub proof fn lemma_leading_digit_range(n: nat, base: nat)
    requires
        n >= 1,
        base >= 2,
    ensures
        1 <= leading_digit(n, base) < base,
{
    lemma_digit_bounds(n, base);
    let k = num_digits(n, base);
    let p = pow(base as int, (k - 1) as nat);
    assert(pow(base as int, k) == base * p) by {
        reveal(pow);
    }
    lemma_pow_positive(base as int, (k - 1) as nat);
    assert(1 <= n as int / p < base) by (nonlinear_arith)
        requires
            p <= n,
            n < base * p,
            p >= 1,
    ;
}

/// A value below `2^j` has at most `j` digits in any base of at least two.
proof fn lemma_digits_at_most(n: nat, base: nat, j: nat)
    requires
        base >= 2,
        n < pow2(j),
    ensures
        num_digits(n, base) <= j,
    decreases n,
{
    if n > 0 && j == 0 {
        lemma2_to64();
    }
    if n > 0 {
        lemma_pow2_unfold(j);
        let q = n / base;
        assert(q < pow2((j - 1) as nat) && q < n) by (nonlinear_arith)
            requires
                q == n / base,
                n < 2 * pow2((j - 1) as nat),
                n >= 1,
                base >= 2,
        ;
        lemma_digits_at_most(q, base, (j - 1) as nat);
    }
}

/// Number of digits needed to write `n` in `base` (zero for `n == 0`).
pub fn digit_count(n: u64, base: u8) -> (r: u32)
    requires
        base >= 2,
    ensures
        r == num_digits(n as nat, base as nat),
{
    proof {
        lemma2_to64();
        lemma_digits_at_most(n as nat, base as nat, 64);
    }
    let mut m: u64 = n;
    let mut count: u32 = 0;
    while m > 0
        invariant
            base >= 2,
            num_digits(n as nat, base as nat) <= 64,
            num_digits(n as nat, base as nat) == count + num_digits(m as nat, base as nat),
            count + m <= n,
        decreases m,
    {
        let next = m / (base as u64);
        assert(next < m && next + 1 <= m) by (nonlinear_arith)
            requires
                next == m / (base as u64),
                m >= 1,
                base >= 2,
        ;
        m = next;
        count = count + 1;
    }
    count
}

/// `base^(e+1) == base * base^e`.
pub proof fn lemma_pow_step(base: nat, e: nat)
    ensures
        pow(base as int, e + 1) == base * pow(base as int, e),
{
    reveal(pow);
}

/// `base` raised to `e`, where the power is known not to exceed `bound`.
pub(crate) fn power_of(base: u8, e: u32, bound: u64) -> (r: u64)
    requires
        base >= 2,
        pow(base as int, e as nat) <= bound,
    ensures
        r == pow(base as int, e as nat),
{
    let mut p: u64 = 1;
    let mut i: u32 = 0;
    assert(pow(base as int, 0) == 1) by {
        reveal(pow);
    }
    while i < e
        invariant
            base >= 2,
            i <= e,
            p == pow(base as int, i as nat),
            pow(base as int, e as nat) <= bound,
        decreases e - i,
    {
        proof {
            lemma_pow_increases(base as nat, (i + 1) as nat, e as nat);
            lemma_pow_step(base as nat, i as nat);
            assert(p * base == base * p) by (nonlinear_arith);
        }
        p = p * (base as u64);
        i = i + 1;
    }
    p
}

/// The leading digit of `n` in `base`.
pub fn first_digit(n: u64, base: u8) -> (r: u8)
    requires
        n >= 1,
        base >= 2,
    ensures
        r == leading_digit(n as nat, base as nat),
        1 <= r < base,
{
    let k = digit_count(n, base);
    proof {
        lemma_digit_bounds(n as nat, base as nat);
        lemma_leading_digit_range(n as nat, base as nat);
        lemma_pow_positive(base as int, (k - 1) as nat);
    }
    let p = power_of(base, k - 1, n);
    (n / p) as u8
}

} // verus!
