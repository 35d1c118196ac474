//! Candidate selection, date projection and the choice of the earliest
//! milestone.

use crate::calendar::{
    add_months, add_months_to_date, first_day, last_day, lemma_day_number_injective, Date,
};
use crate::finders::Pattern;
use crate::multi::{found_patterns, nearest_pattern, standard_finders, MultiPatternFinder};
use vstd::prelude::*;

verus! {

/// The units in which elapsed time is counted.
#[derive(Clone, Copy, Debug, PartialEq, Eq, Structural)]
pub enum TimeUnit {
    Second,
    Minute,
    Hour,
    Day,
    Week,
    Month,
}

/// Seconds in one unit; months have no fixed length.
pub open spec fn unit_seconds(u: TimeUnit) -> Option<u64> {
    match u {
        TimeUnit::Second => Some(1),
        TimeUnit::Minute => Some(60),
        TimeUnit::Hour => Some(3600),
        TimeUnit::Day => Some(86400),
        TimeUnit::Week => Some(604800),
        TimeUnit::Month => None,
    }
}

impl TimeUnit {
    /// Seconds in one unit, or `None` for months.
    pub fn to_seconds(&self) -> (r: Option<u64>)
        ensures
            r == unit_seconds(*self),
    {
        match self {
            TimeUnit::Second => Some(1),
            TimeUnit::Minute => Some(60),
            TimeUnit::Hour => Some(60 * 60),
            TimeUnit::Day => Some(60 * 60 * 24),
            TimeUnit::Week => Some(60 * 60 * 24 * 7),
            TimeUnit::Month => None,
        }
    }
}

/// A notable value counted in a unit.
#[derive(Clone, Copy, Debug, PartialEq, Eq, Structural)]
pub struct DeltaCandidate {
    pub pattern: Pattern,
    pub unit: TimeUnit,
}

/// The candidate's length in seconds: `None` for months, and when it does not
/// fit in 64 bits.
pub open spec fn candidate_seconds(c: DeltaCandidate) -> Option<u64> {
    match unit_seconds(c.unit) {
        Some(s) => if c.pattern.value * s <= u64::MAX {
            Some((c.pattern.value * s) as u64)
        } else {
            None
        },
        None => None,
    }
}

/// Day number of the date the candidate falls on, counted from `date`: whole
/// days of its seconds for fixed-length units, calendar months for months;
/// `None` when that date cannot be represented.
pub open spec fn projected_day(c: DeltaCandidate, date: Date) -> Option<int> {
    match unit_seconds(c.unit) {
        Some(_) => match candidate_seconds(c) {
            Some(s) => {
                let t = date.days() + s / 86400;
                if first_day() <= t <= last_day() {
                    Some(t)
                } else {
                    None
                }
            },
            None => None,
        },
        None => match add_months(date, c.pattern.value as nat) {
            Some(d) => Some(d.days()),
            None => None,
        },
    }
}

proof fn lemma_last_day_fits()
    ensures
        last_day() < 0x7fff_ffff,
{
    reveal_with_fuel(crate::calendar::days_before_month, 12);
}

impl DeltaCandidate {
    /// The candidate's length in seconds (see `candidate_seconds`).
    pub fn to_seconds(&self) -> (r: Option<u64>)
        ensures
            r == candidate_seconds(*self),
    {
        match self.unit.to_seconds() {
            Some(s) => self.pattern.value.checked_mul(s),
            None => None,
        }
    }

    /// The date the candidate falls on, counted from `date`.
    pub fn add_to_date(&self, date: &Date) -> (r: Option<Date>)
        requires
            date.wf(),
        ensures
            r is Some <==> projected_day(*self, *date) is Some,
            r matches Some(t) ==> t.wf() && projected_day(*self, *date) == Some(t.days()),
            self.unit == TimeUnit::Month ==> r == add_months(*date, self.pattern.value as nat),
    {
        if let Some(s) = self.to_seconds() {
            let days: i64 = (s / 86400) as i64;
            let t: i64 = date.day_number() as i64 + days;
            if t > i32::MAX as i64 {
                proof {
                    lemma_last_day_fits();
                }
                return None;
            }
            return Date::from_day_number(t as i32);
        }
        match self.unit {
            TimeUnit::Month => add_months_to_date(date, self.pattern.value),
            _ => None,
        }
    }
}

/// `a` comes strictly before `b` in calendar order.
pub open spec fn is_before(a: Date, b: Date) -> bool {
    a.year < b.year || (a.year == b.year && (a.month < b.month || (a.month == b.month && a.day
        < b.day)))
}

/// Whole days between the two dates, in either order.
pub open spec fn elapsed_days(reference: Date, current: Date) -> int {
    let d = current.days() - reference.days();
    if d < 0 {
        -d
    } else {
        d
    }
}

/// Calendar months from the earlier of the two dates to the later, counting a
/// started month as a whole one.
pub open spec fn months_between(reference: Date, current: Date) -> int {
    let (e, l) = if is_before(current, reference) {
        (current, reference)
    } else {
        (reference, current)
    };
    12 * (l.year - e.year) + l.month - e.month + if l.day > e.day {
        1int
    } else {
        0int
    }
}

/// How many of `unit` have elapsed, rounded up.
pub open spec fn unit_count(reference: Date, current: Date, unit: TimeUnit) -> int {
    match unit_seconds(unit) {
        Some(s) => (elapsed_days(reference, current) * 86400 + s - 1) / s as int,
        None => months_between(reference, current),
    }
}

/// The candidate of one unit and base: the nearest notable count at or above
/// the elapsed count, when that count is positive and a notable value exists.
pub open spec fn candidate_for(reference: Date, current: Date, unit: TimeUnit, base: u8) -> Option<
    DeltaCandidate,
> {
    let n = unit_count(reference, current, unit);
    if n <= 0 {
        None
    } else {
        match nearest_pattern(found_patterns(standard_finders(), n as nat, base), base) {
            Some(p) => Some(DeltaCandidate { pattern: p, unit }),
            None => None,
        }
    }
}

/// Every unit with every supported base, units outermost.
pub open spec fn selection_slots() -> Seq<(TimeUnit, u8)> {
    seq![
        (TimeUnit::Second, 10u8),
        (TimeUnit::Second, 16u8),
        (TimeUnit::Minute, 10u8),
        (TimeUnit::Minute, 16u8),
        (TimeUnit::Hour, 10u8),
        (TimeUnit::Hour, 16u8),
        (TimeUnit::Day, 10u8),
        (TimeUnit::Day, 16u8),
        (TimeUnit::Week, 10u8),
        (TimeUnit::Week, 16u8),
        (TimeUnit::Month, 10u8),
        (TimeUnit::Month, 16u8),
    ]
}

/// The values present in `s`, in order.
pub open spec fn present<T>(s: Seq<Option<T>>) -> Seq<T>
    decreases s.len(),
{
    if s.len() == 0 {
        Seq::empty()
    } else {
        let init = present(s.drop_last());
        match s.last() {
            Some(x) => init.push(x),
            None => init,
        }
    }
}

/// The candidate of each slot, in slot order.
pub open spec fn slot_candidates(reference: Date, current: Date) -> Seq<Option<DeltaCandidate>> {
    selection_slots().map_values(|s: (TimeUnit, u8)| candidate_for(reference, current, s.0, s.1))
}

/// All candidates for the two dates, in slot order.
pub open spec fn candidate_list(reference: Date, current: Date) -> Seq<DeltaCandidate> {
    present(slot_candidates(reference, current))
}

fn slots() -> (r: Vec<(TimeUnit, u8)>)
    ensures
        r@ == selection_slots(),
{
    let r = vec![
        (TimeUnit::Second, 10u8),
        (TimeUnit::Second, 16u8),
        (TimeUnit::Minute, 10u8),
        (TimeUnit::Minute, 16u8),
        (TimeUnit::Hour, 10u8),
        (TimeUnit::Hour, 16u8),
        (TimeUnit::Day, 10u8),
        (TimeUnit::Day, 16u8),
        (TimeUnit::Week, 10u8),
        (TimeUnit::Week, 16u8),
        (TimeUnit::Month, 10u8),
        (TimeUnit::Month, 16u8),
    ];
    assert(r@ =~= selection_slots());
    r
}

/// Whole days between the two dates, in either order.
pub fn elapsed_days_between(reference: &Date, current: &Date) -> (r: u64)
    requires
        reference.wf(),
        current.wf(),
    ensures
        r == elapsed_days(*reference, *current),
        r <= 0x1_0000_0000,
{
    let d: i64 = current.day_number() as i64 - reference.day_number() as i64;
    if d < 0 {
        (-d) as u64
    } else {
        d as u64
    }
}

/// Calendar months between the two dates (see `months_between`).
pub fn elapsed_months(reference: &Date, current: &Date) -> (r: u64)
    requires
        reference.wf(),
        current.wf(),
    ensures
        r == months_between(*reference, *current),
{
    let before = current.year < reference.year || (current.year == reference.year && (
    current.month < reference.month || (current.month == reference.month && current.day
        < reference.day)));
    let (e, l) = if before {
        (current, reference)
    } else {
        (reference, current)
    };
    let years: u64 = (l.year as i64 - e.year as i64) as u64;
    let mut months: u64 = 12 * years + l.month as u64 - e.month as u64;
    if l.day > e.day {
        months = months + 1;
    }
    months
}

/// How many of `unit` have elapsed between the dates, rounded up.
pub fn count_units(reference: &Date, current: &Date, unit: TimeUnit) -> (r: u64)
    requires
        reference.wf(),
        current.wf(),
    ensures
        r == unit_count(*reference, *current, unit),
{
    match unit.to_seconds() {
        Some(s) => {
            let days = elapsed_days_between(reference, current);
            let seconds: u64 = days * 86400;
            (seconds + (s - 1)) / s
        },
        None => elapsed_months(reference, current),
    }
}

/// Every candidate for the two dates: for each unit and supported base, the
/// nearest notable count at or above the elapsed count.
pub fn candidates(reference: &Date, current: &Date) -> (r: Vec<DeltaCandidate>)
    requires
        reference.wf(),
        current.wf(),
    ensures
        r@ == candidate_list(*reference, *current),
{
    let finder = MultiPatternFinder::new();
    let slots = slots();
    let ghost opts = slot_candidates(*reference, *current);
    let mut res: Vec<DeltaCandidate> = Vec::new();
    let mut i: usize = 0;
    while i < slots.len()
        invariant
            reference.wf(),
            current.wf(),
            slots@ == selection_slots(),
            finder.pattern_finders@ == standard_finders(),
            opts == slot_candidates(*reference, *current),
            opts.len() == slots@.len(),
            i <= slots@.len(),
            res@ == present(opts.take(i as int)),
        decreases slots@.len() - i,
    {
        assert(opts.take(i + 1).drop_last() =~= opts.take(i as int));
        assert(opts.take(i + 1).last() == opts[i as int]);
        let (unit, base) = slots[i];
        let n = count_units(reference, current, unit);
        if n >= 1 {
            match finder.find_next(n, base) {
                Some(p) => {
                    res.push(DeltaCandidate { pattern: p, unit });
                },
                None => {},
            }
        }
        i = i + 1;
    }
    assert(opts.take(opts.len() as int) =~= opts);
    res
}

/// The best upcoming milestone: a notable count of a unit and the date it
/// falls on.
#[derive(Clone, Copy, Debug, PartialEq, Eq, Structural)]
pub struct Milestone {
    pub pattern: Pattern,
    pub unit: TimeUnit,
    pub target: Date,
}

/// Candidate `i` of `cs` has a date, no candidate has an earlier one, and
/// every candidate before it with a date has a later one.
pub open spec fn is_earliest(cs: Seq<DeltaCandidate>, reference: Date, i: int) -> bool {
    &&& 0 <= i < cs.len()
    &&& projected_day(cs[i], reference) is Some
    &&& forall|j: int|
        0 <= j < cs.len() && (#[trigger] projected_day(cs[j], reference)) is Some ==> projected_day(
            cs[i],
            reference,
        )->0 <= projected_day(cs[j], reference)->0
    &&& forall|j: int|
        0 <= j < i && (#[trigger] projected_day(cs[j], reference)) is Some ==> projected_day(
            cs[i],
            reference,
        )->0 < projected_day(cs[j], reference)->0
}

/// `m` is candidate `i` of `cs`, the earliest one, with its date.
pub open spec fn is_winner_at(cs: Seq<DeltaCandidate>, reference: Date, m: Milestone, i: int) -> bool {
    &&& is_earliest(cs, reference, i)
    &&& cs[i] == DeltaCandidate { pattern: m.pattern, unit: m.unit }
    &&& m.target.wf()
    &&& projected_day(cs[i], reference) == Some(m.target.days())
}

/// No candidate of `cs` has a date.
pub open spec fn none_projected(cs: Seq<DeltaCandidate>, reference: Date) -> bool {
    forall|j: int| 0 <= j < cs.len() ==> (#[trigger] projected_day(cs[j], reference)) is None
}

/// The earliest of `cands`, projected from `reference`; among candidates on the
/// same day the first one wins.
pub fn select_earliest(cands: &Vec<DeltaCandidate>, reference: &Date) -> (r: Option<Milestone>)
    requires
        reference.wf(),
    ensures
        r is None <==> none_projected(cands@, *reference),
        r matches Some(m) ==> exists|i: int| is_winner_at(cands@, *reference, m, i),
{
    let mut best: Option<Milestone> = None;
    let mut best_day: i32 = 0;
    let ghost mut best_index: int = 0;
    let mut i: usize = 0;
    while i < cands.len()
        invariant
            reference.wf(),
            i <= cands@.len(),
            best is None ==> forall|j: int|
                0 <= j < i ==> (#[trigger] projected_day(cands@[j], *reference)) is None,
            best matches Some(m) ==> 0 <= best_index < i && cands@[best_index] == (DeltaCandidate {
                pattern: m.pattern,
                unit: m.unit,
            }) && m.target.wf() && m.target.days() == best_day && projected_day(
                cands@[best_index],
                *reference,
            ) == Some(best_day as int),
            best is Some ==> forall|j: int|
                0 <= j < i && (#[trigger] projected_day(cands@[j], *reference)) is Some
                    ==> best_day <= projected_day(cands@[j], *reference)->0,
            best is Some ==> forall|j: int|
                0 <= j < best_index && (#[trigger] projected_day(cands@[j], *reference)) is Some
                    ==> best_day < projected_day(cands@[j], *reference)->0,
        decreases cands@.len() - i,
    {
        let c = cands[i];
        match c.add_to_date(reference) {
            Some(t) => {
                let day = t.day_number();
                if best.is_none() || day < best_day {
                    best = Some(Milestone { pattern: c.pattern, unit: c.unit, target: t });
                    best_day = day;
                    proof {
                        best_index = i as int;
                    }
                }
            },
            None => {},
        }
        i = i + 1;
    }
    proof {
        if let Some(m) = best {
            assert(is_winner_at(cands@, *reference, m, best_index));
        }
    }
    best
}

/// The best milestone for the two dates: the candidate that falls on the
/// earliest date, the first of them on a tie; `None` when no candidate has a
/// date.
pub open spec fn is_best_milestone(reference: Date, current: Date, m: Milestone) -> bool {
    exists|i: int| is_winner_at(candidate_list(reference, current), reference, m, i)
}

/// The earliest upcoming milestone counted from `reference`, given the elapsed
/// time to `current`.
pub fn best_milestone(reference: &Date, current: &Date) -> (r: Option<Milestone>)
    requires
        reference.wf(),
        current.wf(),
    ensures
        r is None <==> none_projected(candidate_list(*reference, *current), *reference),
        r matches Some(m) ==> is_best_milestone(*reference, *current, m),
{
    let cands = candidates(reference, current);
    select_earliest(&cands, reference)
}

/// The best milestone is determined by the two dates alone: two milestones that
/// both meet its description are equal, so repeated selections agree.
pub proof fn lemma_best_milestone_stable(
    reference: Date,
    current: Date,
    m1: Milestone,
    m2: Milestone,
)
    requires
        is_best_milestone(reference, current, m1),
        is_best_milestone(reference, current, m2),
    ensures
        m1 == m2,
{
    let cs = candidate_list(reference, current);
    let i1 = choose|i: int| is_winner_at(cs, reference, m1, i);
    let i2 = choose|i: int| is_winner_at(cs, reference, m2, i);
    assert(projected_day(cs[i1], reference) is Some);
    assert(projected_day(cs[i2], reference) is Some);
    assert(i1 == i2);
    lemma_day_number_injective(m1.target, m2.target);
}

} // verus!
