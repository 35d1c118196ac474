//! Rendering of patterns, candidates and waiting times as text.

use crate::finders::Pattern;
use crate::milestone::{DeltaCandidate, TimeUnit};
use vstd::arithmetic::div_mod::lemma_small_mod;
use vstd::prelude::*;

verus! {

/// The digit symbols, lowercase.
pub open spec fn digit_symbols() -> Seq<char> {
    seq!['0', '1', '2', '3', '4', '5', '6', '7', '8', '9', 'a', 'b', 'c', 'd', 'e', 'f']
}

/// `v` written in `base` (2 to 16) without leading zeros; zero is `0`.
pub open spec fn digits_text(v: nat, base: nat) -> Seq<char>
    decreases v,
    via digits_text_decreases
{
    if base < 2 || base > 16 || v < base {
        seq![digit_symbols()[v as int]]
    } else {
        digits_text(v / base, base).push(digit_symbols()[(v % base) as int])
    }
}

#[via_fn]
proof fn digits_text_decreases(v: nat, base: nat) {
    if !(base < 2 || base > 16 || v < base) {
        assert(v / base < v) by (nonlinear_arith)
            requires
                v >= base,
                base >= 2,
        ;
    }
}

/// A pattern as text: plain decimal digits, or `0x` and lowercase hex digits.
pub open spec fn pattern_text(p: Pattern) -> Seq<char> {
    if p.base == 16 {
        seq!['0', 'x'] + digits_text(p.value as nat, 16)
    } else {
        digits_text(p.value as nat, 10)
    }
}

/// The name of a unit, singular.
pub open spec fn unit_name(u: TimeUnit) -> Seq<char> {
    match u {
        TimeUnit::Second => seq!['s', 'e', 'c', 'o', 'n', 'd'],
        TimeUnit::Minute => seq!['m', 'i', 'n', 'u', 't', 'e'],
        TimeUnit::Hour => seq!['h', 'o', 'u', 'r'],
        TimeUnit::Day => seq!['d', 'a', 'y'],
        TimeUnit::Week => seq!['w', 'e', 'e', 'k'],
        TimeUnit::Month => seq!['m', 'o', 'n', 't', 'h'],
    }
}

/// A candidate as text: its pattern, a space, and its unit, plural above one.
pub open spec fn candidate_text(c: DeltaCandidate) -> Seq<char> {
    pattern_text(c.pattern) + seq![' '] + unit_name(c.unit) + if c.pattern.value > 1 {
        seq!['s']
    } else {
        Seq::empty()
    }
}

/// A waiting time of `seconds` as text, in the largest unit that reads well:
/// months (of 30.5 days) above 20 weeks, weeks above 99 days, days above 72
/// hours, hours above 60 minutes, minutes above 60 seconds, else seconds.
pub open spec fn duration_text(seconds: nat) -> Seq<char> {
    let weeks = seconds / 604800;
    let days = seconds / 86400;
    let hours = seconds / 3600;
    let minutes = seconds / 60;
    if weeks > 20 {
        digits_text(days * 2 / 61, 10) + seq![' ', 'm', 'o', 'n', 't', 'h', 's']
    } else if days > 99 {
        digits_text(weeks, 10) + seq![' ', 'w', 'e', 'e', 'k', 's']
    } else if hours > 72 {
        digits_text(days, 10) + seq![' ', 'd', 'a', 'y', 's']
    } else if minutes > 60 {
        digits_text(hours, 10) + seq![' ', 'h', 'o', 'u', 'r', 's']
    } else if seconds > 60 {
        digits_text(minutes, 10) + seq![' ', 'm', 'i', 'n', 'u', 't', 'e', 's']
    } else {
        digits_text(seconds, 10) + seq![' ', 's', 'e', 'c', 'o', 'n', 'd', 's']
    }
}

/// Relies on `String::push`: appends one character.
#[verifier::external_body]
fn push_char(s: &mut String, c: char)
    ensures
        final(s)@ == old(s)@.push(c),
{
    s.push(c);
}

/// Appends each character of `t` to `s`.
fn push_chars(s: &mut String, t: &Vec<char>)
    ensures
        final(s)@ == old(s)@ + t@,
{
    let mut i: usize = 0;
    while i < t.len()
        invariant
            i <= t@.len(),
            s@ == old(s)@ + t@.take(i as int),
        decreases t@.len() - i,
    {
        push_char(s, t[i]);
        i = i + 1;
        assert(s@ =~= old(s)@ + t@.take(i as int));
    }
    assert(t@.take(t@.len() as int) =~= t@);
}

/// The symbol of digit `d`.
fn digit_symbol(d: u64) -> (c: char)
    requires
        d < 16,
    ensures
        c == digit_symbols()[d as int],
{
    let symbols = vec!['0', '1', '2', '3', '4', '5', '6', '7', '8', '9', 'a', 'b', 'c', 'd', 'e', 'f'];
    assert(symbols@ =~= digit_symbols());
    symbols[d as usize]
}

/// Appends the digits of `v` in `base` to `s`.
fn push_digits(s: &mut String, v: u64, base: u64)
    requires
        2 <= base <= 16,
    ensures
        final(s)@ == old(s)@ + digits_text(v as nat, base as nat),
    decreases v,
{
    if v >= base {
        assert(v / base < v) by (nonlinear_arith)
            requires
                v >= base,
                base >= 2,
        ;
        push_digits(s, v / base, base);
    } else {
        proof {
            lemma_small_mod(v as nat, base as nat);
        }
    }
    push_char(s, digit_symbol(v % base));
}

/// `v` written in `base`.
pub fn digits_string(v: u64, base: u64) -> (r: String)
    requires
        2 <= base <= 16,
    ensures
        r@ == digits_text(v as nat, base as nat),
{
    let mut s = String::new();
    push_digits(&mut s, v, base);
    s
}

impl Pattern {
    /// The pattern as text: decimal digits, or `0x` and lowercase hex digits.
    pub fn render(&self) -> (r: String)
        requires
            self.base == 10 || self.base == 16,
        ensures
            r@ == pattern_text(*self),
    {
        let mut s = String::new();
        if self.base == 16 {
            push_char(&mut s, '0');
            push_char(&mut s, 'x');
        }
        push_digits(&mut s, self.value, self.base as u64);
        s
    }
}

impl TimeUnit {
    /// The name of the unit, singular.
    pub fn name(&self) -> (r: Vec<char>)
        ensures
            r@ == unit_name(*self),
    {
        let r = match self {
            TimeUnit::Second => vec!['s', 'e', 'c', 'o', 'n', 'd'],
            TimeUnit::Minute => vec!['m', 'i', 'n', 'u', 't', 'e'],
            TimeUnit::Hour => vec!['h', 'o', 'u', 'r'],
            TimeUnit::Day => vec!['d', 'a', 'y'],
            TimeUnit::Week => vec!['w', 'e', 'e', 'k'],
            TimeUnit::Month => vec!['m', 'o', 'n', 't', 'h'],
        };
        assert(r@ =~= unit_name(*self));
        r
    }
}

impl DeltaCandidate {
    /// The candidate as text, such as `100 days` or `0x100 seconds`.
    pub fn describe(&self) -> (r: String)
        requires
            self.pattern.base == 10 || self.pattern.base == 16,
        ensures
            r@ == candidate_text(*self),
    {
        let mut s = self.pattern.render();
        push_char(&mut s, ' ');
        push_chars(&mut s, &self.unit.name());
        if self.pattern.value > 1 {
            push_char(&mut s, 's');
        }
        assert(s@ =~= candidate_text(*self));
        s
    }
}

/// A waiting time of `seconds` as text (see `duration_text`).
pub fn duration_string(seconds: u64) -> (r: String)
    ensures
        r@ == duration_text(seconds as nat),
{
    let weeks = seconds / 604800;
    let days = seconds / 86400;
    let hours = seconds / 3600;
    let minutes = seconds / 60;
    let (count, word) = if weeks > 20 {
        (days * 2 / 61, vec![' ', 'm', 'o', 'n', 't', 'h', 's'])
    } else if days > 99 {
        (weeks, vec![' ', 'w', 'e', 'e', 'k', 's'])
    } else if hours > 72 {
        (days, vec![' ', 'd', 'a', 'y', 's'])
    } else if minutes > 60 {
        (hours, vec![' ', 'h', 'o', 'u', 'r', 's'])
    } else if seconds > 60 {
        (minutes, vec![' ', 'm', 'i', 'n', 'u', 't', 'e', 's'])
    } else {
        (seconds, vec![' ', 's', 'e', 'c', 'o', 'n', 'd', 's'])
    };
    let mut s = digits_string(count, 10);
    push_chars(&mut s, &word);
    assert(s@ =~= duration_text(seconds as nat));
    s
}

} // verus!
