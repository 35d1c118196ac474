//! Proleptic Gregorian dates and the month projection.

use vstd::arithmetic::div_mod::{lemma_fundamental_div_mod, lemma_fundamental_div_mod_converse};
use vstd::prelude::*;

verus! {

/// Earliest year a date may have.
pub const MIN_YEAR: i32 = -262143;

/// Latest year a date may have.
pub const MAX_YEAR: i32 = 262142;

/// Gregorian leap years.
pub open spec fn is_leap_year(y: int) -> bool {
    y % 4 == 0 && (y % 100 != 0 || y % 400 == 0)
}

/// Length of month `m` of year `y`.
pub open spec fn days_in_month(y: int, m: int) -> int {
    if m == 2 {
        if is_leap_year(y) {
            29
        } else {
            28
        }
    } else if m == 4 || m == 6 || m == 9 || m == 11 {
        30
    } else {
        31
    }
}

/// A day that exists, in the supported range of years.
pub open spec fn valid_ymd(y: int, m: int, d: int) -> bool {
    MIN_YEAR <= y <= MAX_YEAR && 1 <= m <= 12 && 1 <= d <= days_in_month(y, m)
}

/// Days of year `y` before the first of month `m`.
pub open spec fn days_before_month(y: int, m: int) -> int
    decreases m,
{
    if m <= 1 {
        0
    } else {
        days_before_month(y, m - 1) + days_in_month(y, m - 1)
    }
}

/// Days before the first of January of year `y`, counted from 0001-01-01.
pub open spec fn days_before_year(y: int) -> int {
    365 * (y - 1) + (y - 1) / 4 - (y - 1) / 100 + (y - 1) / 400
}

/// Day number of a date, with 0001-01-01 as day 1.
pub open spec fn day_number(y: int, m: int, d: int) -> int {
    days_before_year(y) + days_before_month(y, m) + d
}

/// Day number of the first supported day.
pub open spec fn first_day() -> int {
    day_number(MIN_YEAR as int, 1, 1)
}

/// Day number of the last supported day.
pub open spec fn last_day() -> int {
    day_number(MAX_YEAR as int, 12, 31)
}

/// A calendar date.
#[derive(Clone, Copy, Debug, PartialEq, Eq, Structural)]
pub struct Date {
    pub year: i32,
    pub month: u32,
    pub day: u32,
}

impl Date {
    /// The date names a day that exists.
    pub open spec fn wf(&self) -> bool {
        valid_ymd(self.year as int, self.month as int, self.day as int)
    }

    /// The day number of this date.
    pub open spec fn days(&self) -> int {
        day_number(self.year as int, self.month as int, self.day as int)
    }

    /// The date `year-month-day`, if that day exists.
    pub fn new(year: i32, month: u32, day: u32) -> (r: Option<Date>)
        ensures
            r is Some <==> valid_ymd(year as int, month as int, day as int),
            r matches Some(d) ==> d.year == year && d.month == month && d.day == day,
    {
        match checked_day_number(year, month, day) {
            Some(_) => Some(Date { year, month, day }),
            None => None,
        }
    }

    /// The day number of this date (0001-01-01 is day 1).
    pub fn day_number(&self) -> (r: i32)
        requires
            self.wf(),
        ensures
            r == self.days(),
    {
        match checked_day_number(self.year, self.month, self.day) {
            Some(n) => n,
            None => {
                proof {
                    assert(false);
                }
                0
            },
        }
    }

    /// The date with day number `n`, if it lies in the supported range.
    pub fn from_day_number(n: i32) -> (r: Option<Date>)
        ensures
            r is Some <==> first_day() <= n <= last_day(),
            r matches Some(d) ==> d.wf() && d.days() == n,
    {
        date_of_day_number(n)
    }
}

/// Relies on chrono's `NaiveDate::from_ymd_opt`, which accepts exactly the days
/// that exist within its year range, and on `Datelike::num_days_from_ce`, which
/// counts days with 0001-01-01 as day 1.
#[verifier::external_body]
fn checked_day_number(year: i32, month: u32, day: u32) -> (r: Option<i32>)
    ensures
        r is Some <==> valid_ymd(year as int, month as int, day as int),
        r matches Some(n) ==> n == day_number(year as int, month as int, day as int),
{
    match chrono::NaiveDate::from_ymd_opt(year, month, day) {
        Some(d) => Some(chrono::Datelike::num_days_from_ce(&d)),
        None => None,
    }
}

/// Relies on chrono's `NaiveDate::from_num_days_from_ce_opt`, which gives the
/// date with a day number (0001-01-01 is day 1) and `None` outside its year
/// range, read back through `Datelike::{year, month, day}`.
#[verifier::external_body]
fn date_of_day_number(n: i32) -> (r: Option<Date>)
    ensures
        r is Some <==> first_day() <= n <= last_day(),
        r matches Some(d) ==> d.wf() && d.days() == n,
{
    match chrono::NaiveDate::from_num_days_from_ce_opt(n) {
        Some(d) => Some(
            Date {
                year: chrono::Datelike::year(&d),
                month: chrono::Datelike::month(&d),
                day: chrono::Datelike::day(&d),
            },
        ),
        None => None,
    }
}

/// `date` moved forward by `months` calendar months, keeping the day of the
/// month; `None` when that day does not exist in the target month or the year
/// leaves the supported range.
pub open spec fn add_months(date: Date, months: nat) -> Option<Date> {
    let t = date.month - 1 + months;
    let y = date.year + t / 12;
    let m = t % 12 + 1;
    if valid_ymd(y, m, date.day as int) {
        Some(Date { year: y as i32, month: m as u32, day: date.day })
    } else {
        None
    }
}

/// Moves `date` forward by `months` calendar months (see `add_months`).
pub fn add_months_to_date(date: &Date, months: u64) -> (r: Option<Date>)
    requires
        date.wf(),
    ensures
        r == add_months(*date, months as nat),
{
    let years: u64 = months / 12;
    let rest: u64 = months % 12;
    let t: u64 = (date.month as u64 - 1) + rest;
    let month: u32 = (t % 12) as u32 + 1;
    let carry: u64 = t / 12;
    proof {
        let total = date.month - 1 + months;
        assert(total / 12 == years + carry && total % 12 == t % 12) by (nonlinear_arith)
            requires
                total == date.month - 1 + months,
                years == months / 12,
                rest == months % 12,
                t == date.month - 1 + rest,
                carry == t / 12,
                1 <= date.month <= 12,
        ;
    }
    let year: i64 = date.year as i64 + years as i64 + carry as i64;
    if year < MIN_YEAR as i64 || year > MAX_YEAR as i64 {
        return None;
    }
    match checked_day_number(year as i32, month, date.day) {
        Some(_) => Some(Date { year: year as i32, month, day: date.day }),
        None => None,
    }
}

/// Adding no months leaves a date unchanged.
pub proof fn lemma_add_zero_months(date: Date)
    requires
        date.wf(),
    ensures
        add_months(date, 0) == Some(date),
{
}

/// Adding twelve months moves a date to the same month and day of the next
/// year, when that day exists there (every day but February 29) and the year
/// is supported.
pub proof fn lemma_add_twelve_months(date: Date)
    requires
        date.wf(),
        date.year < MAX_YEAR,
        !(date.month == 2 && date.day == 29),
    ensures
        add_months(date, 12) == Some(Date { year: (date.year + 1) as i32, ..date }),
{
    let t = date.month - 1 + 12;
    assert(t / 12 == 1 && t % 12 == date.month - 1);
}

/// Days in year `y`.
pub open spec fn year_length(y: int) -> int {
    if is_leap_year(y) {
        366
    } else {
        365
    }
}

/// Going from `y - 1` to `y` passes a multiple of `c` exactly when `y` is one.
proof fn lemma_div_step(y: int, c: int)
    requires
        c > 0,
    ensures
        y / c - (y - 1) / c == (if y % c == 0 {
            1int
        } else {
            0int
        }),
{
    lemma_fundamental_div_mod(y, c);
    let q = y / c;
    let r = y % c;
    assert(y == q * c + r) by (nonlinear_arith)
        requires
            y == c * q + r,
    ;
    if r == 0 {
        assert(y - 1 == (q - 1) * c + (c - 1)) by (nonlinear_arith)
            requires
                y == q * c,
        ;
        lemma_fundamental_div_mod_converse(y - 1, c, q - 1, c - 1);
    } else {
        lemma_fundamental_div_mod_converse(y - 1, c, q, r - 1);
    }
}

/// A multiple of `a * b` is a multiple of `a`.
proof fn lemma_multiple_of_factor(y: int, a: int, b: int)
    requires
        a > 0,
        b > 0,
        y % (a * b) == 0,
    ensures
        y % a == 0,
{
    assert(a * b > 0) by (nonlinear_arith)
        requires
            a > 0,
            b > 0,
    ;
    lemma_fundamental_div_mod(y, a * b);
    let q = y / (a * b);
    assert(y == (q * b) * a + 0) by (nonlinear_arith)
        requires
            y == (a * b) * q + 0,
    ;
    lemma_fundamental_div_mod_converse(y, a, q * b, 0);
}

/// Each year starts `year_length` days after the one before.
proof fn lemma_year_step(y: int)
    ensures
        days_before_year(y + 1) == days_before_year(y) + year_length(y),
{
    lemma_div_step(y, 4);
    lemma_div_step(y, 100);
    lemma_div_step(y, 400);
    if y % 400 == 0 {
        lemma_multiple_of_factor(y, 100, 4);
    }
    if y % 100 == 0 {
        lemma_multiple_of_factor(y, 4, 25);
    }
}

/// Years start in order: year `b` starts no earlier than the end of year `a`.
proof fn lemma_years_ordered(a: int, b: int)
    requires
        a < b,
    ensures
        days_before_year(a + 1) <= days_before_year(b),
    decreases b - a,
{
    if a + 1 < b {
        lemma_years_ordered(a, b - 1);
        lemma_year_step(b - 1);
    }
}

/// Within a year, a valid day lies after the months before it and before
/// the months after it.
proof fn lemma_month_bounds(y: int, m: int, d: int, m2: int)
    requires
        1 <= m <= 12,
        1 <= d <= days_in_month(y, m),
        m < m2 <= 13,
    ensures
        days_before_month(y, m) + d <= days_before_month(y, m2),
        days_before_month(y, 13) == year_length(y),
    decreases m2 - m,
{
    reveal_with_fuel(days_before_month, 13);
    if m + 1 < m2 {
        lemma_month_bounds(y, m, d, m2 - 1);
    }
}

/// Distinct valid dates have distinct day numbers.
pub proof fn lemma_day_number_injective(a: Date, b: Date)
    requires
        a.wf(),
        b.wf(),
        a.days() == b.days(),
    ensures
        a == b,
{
    lemma_injective_ordered(a, b);
    lemma_injective_ordered(b, a);
}

proof fn lemma_injective_ordered(a: Date, b: Date)
    requires
        a.wf(),
        b.wf(),
        a.days() == b.days(),
    ensures
        a.year >= b.year,
        a.year == b.year ==> a.month >= b.month,
        a.year == b.year && a.month == b.month ==> a.day == b.day,
{
    let ya = a.year as int;
    let yb = b.year as int;
    if ya < yb {
        lemma_month_bounds(ya, a.month as int, a.day as int, 13);
        lemma_year_step(ya);
        lemma_years_ordered(ya, yb);
        assert(days_before_month(yb, b.month as int) >= 0) by {
            reveal_with_fuel(days_before_month, 13);
        }
        assert(false);
    } else if ya == yb && a.month < b.month {
        lemma_month_bounds(ya, a.month as int, a.day as int, b.month as int);
        assert(false);
    }
}

} // verus!
