use milestone::digits::{digit_count, first_digit};
use milestone::finders::{Pattern, RepeatedNumberFinder, RoundNumberFinder, SequenceFinder};
use milestone::multi::MultiPatternFinder;

fn value(p: Option<Pattern>) -> Option<u64> {
    p.map(|p| p.value)
}

#[test]
fn digit_count_is_exact_at_powers() {
    assert_eq!(digit_count(0, 10), 0);
    assert_eq!(digit_count(9, 10), 1);
    assert_eq!(digit_count(10, 10), 2);
    assert_eq!(digit_count(99, 10), 2);
    assert_eq!(digit_count(100, 10), 3);
    assert_eq!(digit_count(999, 10), 3);
    assert_eq!(digit_count(1000, 10), 4);
    assert_eq!(digit_count(0xff, 16), 2);
    assert_eq!(digit_count(0x100, 16), 3);
    assert_eq!(digit_count(u64::MAX, 10), 20);
    assert_eq!(digit_count(u64::MAX, 16), 16);
    assert_eq!(digit_count(10_000_000_000_000_000_000, 10), 20);
    assert_eq!(digit_count(9_999_999_999_999_999_999, 10), 19);
}

#[test]
fn first_digit_reads_leading_digit() {
    assert_eq!(first_digit(4321, 10), 4);
    assert_eq!(first_digit(100, 10), 1);
    assert_eq!(first_digit(7, 10), 7);
    assert_eq!(first_digit(0x1f, 16), 1);
    assert_eq!(first_digit(0xe00, 16), 14);
    assert_eq!(first_digit(u64::MAX, 10), 1);
}

#[test]
fn round_number_after_exact_power_doubles() {
    let f = RoundNumberFinder::new();
    assert_eq!(value(f.find_next(101, 10)), Some(200));
    assert_eq!(value(f.find_next(1001, 10)), Some(2000));
    assert_eq!(value(f.find_next(0x101, 16)), Some(0x200));
}

#[test]
fn round_number_keeps_exact_powers() {
    let f = RoundNumberFinder::new();
    assert_eq!(value(f.find_next(100, 10)), Some(100));
    assert_eq!(value(f.find_next(1000, 10)), Some(1000));
    assert_eq!(value(f.find_next(0x100, 16)), Some(0x100));
    assert_eq!(value(f.find_next(10_000_000_000_000_000_000, 10)), Some(10_000_000_000_000_000_000));
}

#[test]
fn round_number_edges() {
    let f = RoundNumberFinder::new();
    assert_eq!(value(f.find_next(1, 10)), None);
    assert_eq!(value(f.find_next(10, 10)), None);
    assert_eq!(value(f.find_next(11, 10)), Some(20));
    assert_eq!(value(f.find_next(4321, 10)), Some(5000));
    assert_eq!(value(f.find_next(u64::MAX, 10)), None);
    assert_eq!(value(f.find_next(u64::MAX, 16)), None);
    assert_eq!(value(f.find_next(0x11, 16)), Some(0x20));
    assert_eq!(f.find_next(0x11, 16).map(|p| p.base), Some(16));
}

#[test]
fn repeated_digit_for_hundred() {
    let f = RepeatedNumberFinder::new();
    assert_eq!(value(f.find_next(100, 10)), Some(111));
    assert_eq!(value(f.find_next(112, 10)), Some(222));
    assert_eq!(value(f.find_next(99, 10)), Some(99));
    assert_eq!(value(f.find_next(5, 10)), Some(5));
    assert_eq!(value(f.find_next(0x1ff, 16)), Some(0x222));
    assert_eq!(value(f.find_next(u64::MAX, 10)), None);
}

#[test]
fn get_repeat_number_builds_repdigits() {
    let f = RepeatedNumberFinder::new();
    assert_eq!(f.get_repeat_number(7, 3, 10), Some(777));
    assert_eq!(f.get_repeat_number(0xa, 3, 16), Some(0xaaa));
    assert_eq!(f.get_repeat_number(4, 0, 10), Some(4));
    assert_eq!(f.get_repeat_number(9, 20, 10), None);
}

#[test]
fn ascending_sequence_for_hundred() {
    let f = SequenceFinder::new(false);
    assert_eq!(value(f.find_next(100, 10)), Some(123));
    assert_eq!(value(f.find_next(50, 10)), Some(123));
    assert_eq!(value(f.find_next(1, 10)), Some(1));
    assert_eq!(value(f.find_next(0x100, 16)), Some(0x123));
}

#[test]
fn ascending_sequence_runs_out_of_digits() {
    let f = SequenceFinder::new(false);
    assert_eq!(value(f.find_next(123_456_789, 10)), Some(123_456_789));
    assert_eq!(value(f.find_next(123_456_790, 10)), None);
    assert_eq!(value(f.find_next(0x123456789abcdef, 16)), Some(0x123456789abcdef));
    assert_eq!(value(f.find_next(0x123456789abcdf0, 16)), None);
}

#[test]
fn descending_sequence_for_fifty() {
    let f = SequenceFinder::new(true);
    assert_eq!(value(f.find_next(50, 10)), Some(321));
    assert_eq!(value(f.find_next(21, 10)), Some(21));
    assert_eq!(value(f.find_next(4321, 10)), Some(4321));
    assert_eq!(value(f.find_next(987_654_322, 10)), None);
    assert_eq!(value(f.find_next(0x100, 16)), Some(0x321));
}

#[test]
fn find_patterns_sorted_for_hundred() {
    let f = MultiPatternFinder::new();
    let values: Vec<u64> = f.find_patterns(100, 10).iter().map(|p| p.value).collect();
    assert_eq!(values, vec![100, 111, 123, 321]);
}

#[test]
fn find_patterns_never_holds_none() {
    let f = MultiPatternFinder::new();
    let nums = vec![9, 99, 100, 1000, 2000, 4321, 123456];
    for n in nums {
        for b in [10u8, 16u8] {
            let ps = f.find_patterns(n, b);
            assert!(!ps.is_empty());
            for w in ps.windows(2) {
                assert!(w[0].value <= w[1].value);
            }
            for p in ps {
                assert!(p.value != 0);
                assert!(p.value >= n);
                assert_eq!(p.base, b);
            }
        }
    }
}

#[test]
fn find_patterns_keeps_duplicates() {
    let f = MultiPatternFinder::new();
    let values: Vec<u64> = f.find_patterns(1, 10).iter().map(|p| p.value).collect();
    assert_eq!(values, vec![1, 1, 1]);
}

#[test]
fn nearest_pattern_is_minimum() {
    let f = MultiPatternFinder::new();
    assert_eq!(value(f.find_next(99, 10)), Some(99));
    assert_eq!(value(f.find_next(100, 10)), Some(100));
    assert_eq!(value(f.find_next(4321, 10)), Some(4321));
    assert_eq!(value(f.find_next(4322, 10)), Some(4444));
    assert_eq!(value(f.find_next(15, 10)), Some(20));
}

#[test]
fn nearest_pattern_none_when_nothing_fits() {
    let f = MultiPatternFinder::new();
    assert_eq!(value(f.find_next(u64::MAX, 10)), None);
}
