//! The pattern finders: each gives the smallest notable value at or above `n`.

use crate::digits::{
    digit_count, first_digit, lemma_digit_bounds, lemma_leading_digit_range, lemma_pow_step,
    leading_digit, num_digits, power_of, supported_base,
};
use vstd::arithmetic::power::*;
use vstd::prelude::*;

verus! {

/// Largest digit count for which the round-number finder answers, so that the
/// power of the base stays within 64 bits.
pub const MAX_EXPONENT: u32 = 19;

/// A notable value together with the base it is notable in.
#[derive(Clone, Copy, Debug, PartialEq, Eq, Structural)]
pub struct Pattern {
    pub value: u64,
    pub base: u8,
}

/// Turns an optional value into an optional pattern in `base`.
pub open spec fn as_pattern(v: Option<nat>, base: u8) -> Option<Pattern> {
    match v {
        Some(x) => Some(Pattern { value: x as u64, base }),
        None => None,
    }
}

/// A value fits in an unsigned 64-bit integer.
pub open spec fn fits_u64(v: int) -> bool {
    0 <= v <= u64::MAX
}

/// Round number: `(d + 1) * base^(k - 1)` where `k` and `d` are the digit count
/// and leading digit of `n - 1`.
pub open spec fn round_value(n: nat, base: nat) -> Option<nat> {
    let m = (n - 1) as nat;
    let k = num_digits(m, base);
    if k < 2 || k > MAX_EXPONENT {
        None
    } else {
        let v = (leading_digit(m, base) + 1) * pow(base as int, (k - 1) as nat);
        if fits_u64(v) {
            Some(v as nat)
        } else {
            None
        }
    }
}

/// The digit `d` written `k` times in `base` (at least once).
pub open spec fn repunit(d: nat, k: nat, base: nat) -> nat
    decreases k,
{
    if k <= 1 {
        d
    } else {
        repunit(d, (k - 1) as nat, base) * base + d
    }
}

/// Repeated digit: the leading digit of `n` repeated across all its digits, or,
/// when that falls below `n`, the next digit repeated as often.
pub open spec fn repeated_value(n: nat, base: nat) -> Option<nat> {
    let k = num_digits(n, base);
    let d = leading_digit(n, base) as nat;
    let r = repunit(d, k, base);
    let v = if r >= n {
        r
    } else {
        repunit(d + 1, k, base)
    };
    if fits_u64(v as int) {
        Some(v)
    } else {
        None
    }
}

/// The `j`-th term of the digit progression: `1, 12, 123, ...` ascending, or
/// `1, 21, 321, ...` descending.
pub open spec fn sequence_term(reverse: bool, j: nat, base: nat) -> nat
    decreases j,
{
    if j <= 1 {
        1
    } else if reverse {
        sequence_term(reverse, (j - 1) as nat, base) + j * pow(base as int, (j - 1) as nat) as nat
    } else {
        sequence_term(reverse, (j - 1) as nat, base) * base + j
    }
}

/// The first term from the `j`-th on, up to the one ending in digit `base - 1`,
/// that is at least `n`.
pub open spec fn sequence_from(reverse: bool, n: nat, base: nat, j: nat) -> Option<nat>
    decreases base - j,
{
    if j < 1 || j >= base {
        None
    } else if sequence_term(reverse, j, base) >= n {
        Some(sequence_term(reverse, j, base))
    } else {
        sequence_from(reverse, n, base, j + 1)
    }
}

/// The smallest term of the progression that is at least `n`.
pub open spec fn sequence_value(reverse: bool, n: nat, base: nat) -> Option<nat> {
    sequence_from(reverse, n, base, 1)
}

/// Finds round numbers such as `300` or `0x4000`.
#[derive(Clone, Copy, Debug)]
pub struct RoundNumberFinder {}

/// Finds repeated-digit numbers such as `777` or `0xaaa`.
#[derive(Clone, Copy, Debug)]
pub struct RepeatedNumberFinder {}

/// Finds digit progressions: `123...` or, reversed, `...321`.
#[derive(Clone, Copy, Debug)]
pub struct SequenceFinder {
    pub reverse: bool,
}

impl RoundNumberFinder {
    /// A round-number finder.
    pub fn new() -> (r: Self) {
        RoundNumberFinder {  }
    }

    /// The round number for `n` in `base`, if it exists within bounds.
    pub fn find_next(&self, n: u64, base: u8) -> (r: Option<Pattern>)
        requires
            n >= 1,
            supported_base(base),
        ensures
            r == as_pattern(round_value(n as nat, base as nat), base),
            r matches Some(p) ==> p.value >= n && p.base == base,
    {
        proof {
            lemma_round_at_least(n as nat, base as nat);
        }
        let m = n - 1;
        let digits = digit_count(m, base);
        if digits > MAX_EXPONENT || digits < 2 {
            return None;
        }
        let first = first_digit(m, base);
        proof {
            lemma_digit_bounds(m as nat, base as nat);
        }
        let p = power_of(base, digits - 1, m);
        match ((first as u64) + 1).checked_mul(p) {
            Some(v) => Some(Pattern { value: v, base }),
            None => None,
        }
    }
}

/// Every round number found is at least `n`.
pub proof fn lemma_round_at_least(n: nat, base: nat)
    requires
        n >= 1,
        base >= 2,
    ensures
        round_value(n, base) matches Some(v) ==> v >= n,
{
    let m = (n - 1) as nat;
    let k = num_digits(m, base);
    if m >= 1 && k >= 2 {
        lemma_digit_bounds(m, base);
        let p = pow(base as int, (k - 1) as nat);
        lemma_pow_positive(base as int, (k - 1) as nat);
        let d = leading_digit(m, base);
        assert(m < (d + 1) * p) by (nonlinear_arith)
            requires
                d == m as int / p,
                p >= 1,
        ;
    }
}

/// A repeated-digit number grows with its length.
proof fn lemma_repunit_monotone(d: nat, j: nat, k: nat, base: nat)
    requires
        1 <= j <= k,
        base >= 1,
    ensures
        repunit(d, j, base) <= repunit(d, k, base),
    decreases k - j,
{
    if j < k {
        lemma_repunit_monotone(d, j, (k - 1) as nat, base);
        let r = repunit(d, (k - 1) as nat, base);
        assert(r <= r * base) by (nonlinear_arith)
            requires
                base >= 1,
        ;
    }
}

/// The digit `d` written `k` times is at least `d * base^(k - 1)`.
proof fn lemma_repunit_lower(d: nat, k: nat, base: nat)
    requires
        k >= 1,
    ensures
        repunit(d, k, base) >= d * pow(base as int, (k - 1) as nat),
    decreases k,
{
    if k == 1 {
        assert(pow(base as int, 0) == 1) by {
            reveal(pow);
        }
    } else {
        lemma_repunit_lower(d, (k - 1) as nat, base);
        lemma_pow_step(base, (k - 2) as nat);
        let r = repunit(d, (k - 1) as nat, base);
        let p = pow(base as int, (k - 2) as nat);
        assert(r * base + d >= d * (base * p)) by (nonlinear_arith)
            requires
                r >= d * p,
        ;
    }
}

/// Every repeated-digit number found is at least `n`.
pub proof fn lemma_repeated_at_least(n: nat, base: nat)
    requires
        n >= 1,
        base >= 2,
    ensures
        repeated_value(n, base) matches Some(v) ==> v >= n,
{
    lemma_digit_bounds(n, base);
    let k = num_digits(n, base);
    let d = leading_digit(n, base) as nat;
    lemma_leading_digit_range(n, base);
    let p = pow(base as int, (k - 1) as nat);
    lemma_pow_positive(base as int, (k - 1) as nat);
    lemma_repunit_lower(d + 1, k, base);
    assert(n < (d + 1) * p) by (nonlinear_arith)
        requires
            d == n as int / p,
            p >= 1,
    ;
}

impl RepeatedNumberFinder {
    /// A repeated-digit finder.
    pub fn new() -> (r: Self) {
        RepeatedNumberFinder {  }
    }

    /// The digit `first_digit` written `digits` times in `base`, when that fits
    /// in 64 bits.
    pub fn get_repeat_number(&self, first_digit: u8, digits: u32, base: u8) -> (r: Option<u64>)
        requires
            base >= 2,
        ensures
            r == (if fits_u64(repunit(first_digit as nat, digits as nat, base as nat) as int) {
                Some(repunit(first_digit as nat, digits as nat, base as nat) as u64)
            } else {
                None
            }),
    {
        let ghost d = first_digit as nat;
        let mut res: u64 = first_digit as u64;
        let mut i: u32 = 1;
        while i < digits
            invariant
                base >= 2,
                1 <= i,
                i <= digits || i == 1,
                res == repunit(d, i as nat, base as nat),
                d == first_digit,
            decreases digits - i,
        {
            proof {
                lemma_repunit_monotone(d, (i + 1) as nat, digits as nat, base as nat);
            }
            match res.checked_mul(base as u64) {
                Some(x) => match x.checked_add(first_digit as u64) {
                    Some(y) => {
                        res = y;
                    },
                    None => {
                        return None;
                    },
                },
                None => {
                    return None;
                },
            }
            i = i + 1;
        }
        proof {
            assert(repunit(d, 0, base as nat) == repunit(d, 1, base as nat));
        }
        Some(res)
    }

    /// The repeated-digit number for `n` in `base`, if it fits in 64 bits.
    pub fn find_next(&self, n: u64, base: u8) -> (r: Option<Pattern>)
        requires
            n >= 1,
            supported_base(base),
        ensures
            r == as_pattern(repeated_value(n as nat, base as nat), base),
            r matches Some(p) ==> p.value >= n && p.base == base,
    {
        proof {
            lemma_repeated_at_least(n as nat, base as nat);
        }
        let digits = digit_count(n, base);
        let first = first_digit(n, base);
        match self.get_repeat_number(first, digits, base) {
            Some(res) => {
                if res >= n {
                    return Some(Pattern { value: res, base });
                }
            },
            None => {
                return None;
            },
        }
        match self.get_repeat_number(first + 1, digits, base) {
            Some(res) => Some(Pattern { value: res, base }),
            None => None,
        }
    }
}

/// Terms of the progression up to digit `base - 1` stay below `base^j`.
proof fn lemma_sequence_term_bound(reverse: bool, j: nat, base: nat)
    requires
        1 <= j < base,
    ensures
        1 <= sequence_term(reverse, j, base) < pow(base as int, j),
    decreases j,
{
    lemma_pow_step(base, (j - 1) as nat);
    if j == 1 {
        assert(pow(base as int, 0) == 1) by {
            reveal(pow);
        }
    } else {
        lemma_sequence_term_bound(reverse, (j - 1) as nat, base);
        let t = sequence_term(reverse, (j - 1) as nat, base);
        let p = pow(base as int, (j - 1) as nat);
        if reverse {
            assert(t + j * p < base * p) by (nonlinear_arith)
                requires
                    1 <= t < p,
                    j + 1 <= base,
            ;
        } else {
            assert(t * base + j < base * p) by (nonlinear_arith)
                requires
                    1 <= t < p,
                    j < base,
            ;
            assert(t * base + j >= 1) by (nonlinear_arith)
                requires
                    1 <= t,
                    base >= 1,
            ;
        }
    }
}

/// In a supported base every power up to `base^(base - 1)` fits in 60 bits.
proof fn lemma_sequence_powers_fit(base: nat, j: nat)
    requires
        base == 10 || base == 16,
        j <= base - 1,
    ensures
        pow(base as int, j) <= 0x1000_0000_0000_0000,
{
    lemma_pow_increases(base, j, (base - 1) as nat);
    reveal_with_fuel(pow, 16);
}

/// Every term found by the sequence finders is at least `n`.
pub proof fn lemma_sequence_at_least(reverse: bool, n: nat, base: nat, j: nat)
    ensures
        sequence_from(reverse, n, base, j) matches Some(v) ==> v >= n,
    decreases base - j,
{
    if j >= 1 && j < base && sequence_term(reverse, j, base) < n {
        lemma_sequence_at_least(reverse, n, base, j + 1);
    }
}

/// In a supported base every term found by the sequence finders fits in 60 bits.
pub proof fn lemma_sequence_fits(reverse: bool, n: nat, base: nat, j: nat)
    requires
        base == 10 || base == 16,
    ensures
        sequence_from(reverse, n, base, j) matches Some(v) ==> v < 0x1000_0000_0000_0000,
    decreases base - j,
{
    if j >= 1 && j < base {
        lemma_sequence_term_bound(reverse, j, base);
        lemma_sequence_powers_fit(base, j);
        lemma_sequence_fits(reverse, n, base, j + 1);
    }
}

impl SequenceFinder {
    /// An ascending sequence finder, or a descending one if `reverse`.
    pub fn new(reverse: bool) -> (r: Self)
        ensures
            r.reverse == reverse,
    {
        SequenceFinder { reverse }
    }

    /// The first term of the progression that is at least `n`, if the
    /// progression reaches `n` before running out of digits.
    pub fn find_next(&self, n: u64, base: u8) -> (r: Option<Pattern>)
        requires
            supported_base(base),
        ensures
            r == as_pattern(sequence_value(self.reverse, n as nat, base as nat), base),
            r matches Some(p) ==> p.value >= n && p.base == base,
    {
        proof {
            lemma_sequence_at_least(self.reverse, n as nat, base as nat, 1);
        }
        let b = base as u64;
        let mut res: u64 = 1;
        let mut power: u64 = 1;
        let mut j: u64 = 1;
        assert(pow(b as int, 0) == 1) by {
            reveal(pow);
        }
        while j < b
            invariant
                supported_base(base),
                b == base,
                1 <= j <= b,
                j < b ==> res == sequence_term(self.reverse, j as nat, b as nat),
                j < b ==> power == pow(b as int, (j - 1) as nat),
                sequence_value(self.reverse, n as nat, b as nat) == sequence_from(
                    self.reverse,
                    n as nat,
                    b as nat,
                    j as nat,
                ),
            decreases b - j,
        {
            if res >= n {
                return Some(Pattern { value: res, base });
            }
            let next = j + 1;
            if next < b {
                proof {
                    lemma_sequence_term_bound(self.reverse, next as nat, b as nat);
                    lemma_sequence_term_bound(self.reverse, j as nat, b as nat);
                    lemma_sequence_powers_fit(b as nat, next as nat);
                    lemma_pow_step(b as nat, (j - 1) as nat);
                    lemma_pow_step(b as nat, j as nat);
                    assert(power * b == b * power) by (nonlinear_arith);
                }
                let next_power = power * b;
                if self.reverse {
                    proof {
                        assert(next * next_power <= res + next * next_power);
                    }
                    res = res + next * next_power;
                } else {
                    proof {
                        assert(res * b <= res * b + next);
                    }
                    res = res * b + next;
                }
                power = next_power;
            }
            j = next;
        }
        None
    }
}

/// A value with `base^(k-1) <= m < base^k` has exactly `k` digits.
proof fn lemma_digits_exact(m: nat, base: nat, k: nat)
    requires
        base >= 2,
        k >= 1,
        pow(base as int, (k - 1) as nat) <= m < pow(base as int, k),
    ensures
        num_digits(m, base) == k,
{
    lemma_pow_positive(base as int, (k - 1) as nat);
    lemma_digit_bounds(m, base);
    let k2 = num_digits(m, base);
    if k2 < k {
        lemma_pow_increases(base, k2, (k - 1) as nat);
    } else if k2 > k {
        lemma_pow_increases(base, k, (k2 - 1) as nat);
    }
}

/// In a supported base `base^20` exceeds 64 bits, and so does twice `base^19`.
proof fn lemma_large_powers(base: nat)
    requires
        base == 10 || base == 16,
    ensures
        pow(base as int, 20) > u64::MAX,
        2 * pow(base as int, 19) > u64::MAX,
{
    reveal_with_fuel(pow, 21);
}

/// An exact power of the base with at least two digits is already round: the
/// round-number finder returns it unchanged.
pub proof fn lemma_round_keeps_powers(base: nat, j: nat)
    requires
        base == 10 || base == 16,
        j >= 2,
        pow(base as int, j) <= u64::MAX,
    ensures
        round_value(pow(base as int, j) as nat, base) == Some(pow(base as int, j) as nat),
{
    let p = pow(base as int, (j - 1) as nat);
    lemma_pow_positive(base as int, (j - 1) as nat);
    lemma_pow_step(base, (j - 1) as nat);
    let n = pow(base as int, j);
    assert(n == base * p);
    let m = (n - 1) as nat;
    assert(p <= m) by (nonlinear_arith)
        requires
            m == n - 1,
            n == base * p,
            p >= 1,
            base >= 2,
    ;
    lemma_digits_exact(m, base, j);
    assert(m as int / p == base - 1) by (nonlinear_arith)
        requires
            m == base * p - 1,
            p >= 1,
            base >= 2,
    ;
    if j > 19 {
        lemma_large_powers(base);
        lemma_pow_increases(base, 20, j);
    }
    assert(((base - 1) + 1) * p == n);
}

/// When `n - 1` is an exact power `base^j` (`j >= 1`), the round-number finder
/// advances to twice that power: the leading digit `1` becomes `2`.
pub proof fn lemma_round_after_power(base: nat, j: nat)
    requires
        base == 10 || base == 16,
        j >= 1,
        2 * pow(base as int, j) <= u64::MAX,
    ensures
        round_value((pow(base as int, j) + 1) as nat, base) == Some((2 * pow(base as int, j)) as nat),
{
    let m = pow(base as int, j) as nat;
    lemma_pow_positive(base as int, j);
    lemma_pow_step(base, j);
    assert(m < pow(base as int, j + 1)) by (nonlinear_arith)
        requires
            pow(base as int, j + 1) == base * m,
            m >= 1,
            base >= 2,
    ;
    lemma_digits_exact(m, base, j + 1);
    assert(m as int / m as int == 1) by (nonlinear_arith)
        requires
            m >= 1,
    ;
    if j > 18 {
        lemma_large_powers(base);
        lemma_pow_increases(base, 19, j);
    }
}

} // verus!
