use milestone::calendar::{add_months_to_date, Date};
use milestone::finders::Pattern;
use milestone::milestone::{best_milestone, candidates, DeltaCandidate, TimeUnit};
use milestone::text::duration_string;

fn date(y: i32, m: u32, d: u32) -> Date {
    Date::new(y, m, d).unwrap()
}

fn days_after(d: &Date, n: i32) -> Date {
    Date::from_day_number(d.day_number() + n).unwrap()
}

#[test]
fn date_validity_and_day_numbers() {
    assert!(Date::new(2023, 2, 29).is_none());
    assert!(Date::new(2024, 2, 29).is_some());
    assert!(Date::new(2024, 13, 1).is_none());
    assert!(Date::new(400000, 1, 1).is_none());
    assert_eq!(date(1, 1, 1).day_number(), 1);
    assert_eq!(date(1970, 1, 1).day_number(), 719_163);
    assert_eq!(Date::from_day_number(719_163), Some(date(1970, 1, 1)));
    assert_eq!(Date::from_day_number(0), Some(date(0, 12, 31)));
    assert_eq!(Date::from_day_number(100_000_000), None);
}

#[test]
fn adding_zero_months_keeps_date() {
    let d = date(2021, 7, 31);
    assert_eq!(add_months_to_date(&d, 0), Some(d));
}

#[test]
fn adding_twelve_months_moves_one_year() {
    assert_eq!(add_months_to_date(&date(2020, 1, 15), 12), Some(date(2021, 1, 15)));
    assert_eq!(add_months_to_date(&date(2020, 2, 29), 12), None);
}

#[test]
fn adding_months_carries_into_year() {
    assert_eq!(add_months_to_date(&date(2020, 11, 5), 3), Some(date(2021, 2, 5)));
    assert_eq!(add_months_to_date(&date(2020, 1, 31), 1), None);
    assert_eq!(add_months_to_date(&date(2020, 1, 31), 2), Some(date(2020, 3, 31)));
    assert_eq!(add_months_to_date(&date(2020, 1, 1), u64::MAX), None);
}

#[test]
fn time_unit_seconds() {
    assert_eq!(TimeUnit::Second.to_seconds(), Some(1));
    assert_eq!(TimeUnit::Minute.to_seconds(), Some(60));
    assert_eq!(TimeUnit::Hour.to_seconds(), Some(3600));
    assert_eq!(TimeUnit::Day.to_seconds(), Some(86_400));
    assert_eq!(TimeUnit::Week.to_seconds(), Some(604_800));
    assert_eq!(TimeUnit::Month.to_seconds(), None);
}

#[test]
fn candidate_seconds_and_projection() {
    let c = DeltaCandidate { pattern: Pattern { value: 3, base: 10 }, unit: TimeUnit::Minute };
    assert_eq!(c.to_seconds(), Some(180));
    let m = DeltaCandidate { pattern: Pattern { value: 3, base: 10 }, unit: TimeUnit::Month };
    assert_eq!(m.to_seconds(), None);
    assert_eq!(m.add_to_date(&date(2020, 1, 10)), Some(date(2020, 4, 10)));
    let big = DeltaCandidate { pattern: Pattern { value: u64::MAX, base: 10 }, unit: TimeUnit::Week };
    assert_eq!(big.to_seconds(), None);
    assert_eq!(big.add_to_date(&date(2020, 1, 1)), None);
    let d = DeltaCandidate { pattern: Pattern { value: 100, base: 10 }, unit: TimeUnit::Day };
    assert_eq!(d.add_to_date(&date(2020, 1, 1)), Some(date(2020, 4, 10)));
    let h = DeltaCandidate { pattern: Pattern { value: 47, base: 10 }, unit: TimeUnit::Hour };
    assert_eq!(h.add_to_date(&date(2020, 1, 1)), Some(date(2020, 1, 2)));
}

#[test]
fn end_to_end_hundred_days() {
    let reference = date(2020, 1, 1);
    let current = days_after(&reference, 100);
    let cands = candidates(&reference, &current);
    let day = cands
        .iter()
        .find(|c| c.unit == TimeUnit::Day && c.pattern.base == 10)
        .unwrap();
    assert_eq!(day.pattern.value, 100);
    assert_eq!(day.add_to_date(&reference), Some(days_after(&reference, 100)));
    let best = best_milestone(&reference, &current).unwrap();
    assert_eq!(best.target, current);
    assert_eq!(best.pattern.value, 100);
    assert_eq!(best.unit, TimeUnit::Day);
}

#[test]
fn elapsed_ninety_nine_days_gives_repdigit() {
    let reference = date(2020, 1, 1);
    let current = days_after(&reference, 99);
    let cands = candidates(&reference, &current);
    let day = cands
        .iter()
        .find(|c| c.unit == TimeUnit::Day && c.pattern.base == 10)
        .unwrap();
    assert_eq!(day.pattern.value, 99);
    assert_eq!(day.add_to_date(&reference), Some(current));
}

#[test]
fn winner_is_stable() {
    let reference = date(2019, 3, 14);
    let current = date(2024, 10, 2);
    let a = best_milestone(&reference, &current);
    let b = best_milestone(&reference, &current);
    assert!(a.is_some());
    assert_eq!(a, b);
}

#[test]
fn winner_is_earliest_projected_candidate() {
    let reference = date(2019, 3, 14);
    let current = date(2024, 10, 2);
    let best = best_milestone(&reference, &current).unwrap();
    let cands = candidates(&reference, &current);
    assert_eq!(cands.len(), 12);
    for c in &cands {
        if let Some(t) = c.add_to_date(&reference) {
            assert!(best.target.day_number() <= t.day_number());
        }
    }
    assert!(best.target.day_number() >= current.day_number());
}

#[test]
fn same_day_has_no_milestone() {
    let d = date(2022, 5, 5);
    assert!(candidates(&d, &d).is_empty());
    assert_eq!(best_milestone(&d, &d), None);
}

#[test]
fn future_reference_counts_down() {
    let reference = date(2030, 1, 1);
    let current = date(2029, 12, 2);
    let cands = candidates(&reference, &current);
    let day = cands
        .iter()
        .find(|c| c.unit == TimeUnit::Day && c.pattern.base == 10)
        .unwrap();
    assert_eq!(day.pattern.value, 30);
    let month = cands
        .iter()
        .find(|c| c.unit == TimeUnit::Month && c.pattern.base == 10)
        .unwrap();
    assert_eq!(month.pattern.value, 1);
}

#[test]
fn render_patterns_and_candidates() {
    assert_eq!(Pattern { value: 100, base: 10 }.render(), "100");
    assert_eq!(Pattern { value: 255, base: 16 }.render(), "0xff");
    assert_eq!(Pattern { value: 0x4321, base: 16 }.render(), "0x4321");
    let c = DeltaCandidate { pattern: Pattern { value: 100, base: 10 }, unit: TimeUnit::Day };
    assert_eq!(c.describe(), "100 days");
    let one = DeltaCandidate { pattern: Pattern { value: 1, base: 10 }, unit: TimeUnit::Month };
    assert_eq!(one.describe(), "1 month");
    let hex = DeltaCandidate { pattern: Pattern { value: 0x100, base: 16 }, unit: TimeUnit::Second };
    assert_eq!(hex.describe(), "0x100 seconds");
}

#[test]
fn duration_strings() {
    assert_eq!(duration_string(0), "0 seconds");
    assert_eq!(duration_string(30), "30 seconds");
    assert_eq!(duration_string(60), "60 seconds");
    assert_eq!(duration_string(61), "1 minutes");
    assert_eq!(duration_string(7_200), "2 hours");
    assert_eq!(duration_string(4 * 86_400), "4 days");
    assert_eq!(duration_string(100 * 86_400), "14 weeks");
    assert_eq!(duration_string(147 * 86_400), "4 months");
}
