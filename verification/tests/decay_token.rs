use loopstake::decay::decay;
use loopstake::token::{is_valid_name, is_valid_symbol};

const LOCK: u64 = 2_592_000; // 30 days
const DAY: u64 = 86_400;

#[test]
fn decay_full_value_at_start() {
    assert_eq!(decay(1_000_000, 0, LOCK, 0), 1_000_000);
}

#[test]
fn decay_half_value_at_half_window() {
    assert_eq!(decay(1_000_000, 0, LOCK, LOCK / 2), 500_000);
}

#[test]
fn decay_zero_at_and_after_maturity() {
    assert_eq!(decay(1_000_000, 0, LOCK, LOCK), 0);
    assert_eq!(decay(1_000_000, 0, LOCK, LOCK + 12345), 0);
    assert_eq!(decay(u64::MAX, 0, 1, 77), 0);
}

#[test]
fn decay_exact_daily_values() {
    // value * (lock - elapsed) / lock, rounded toward zero
    assert_eq!(decay(1_000_000, 0, LOCK, DAY), 966_666);
    assert_eq!(decay(1_000_000, 0, LOCK, 2 * DAY), 933_333);
    assert_eq!(decay(1_000_000, 0, LOCK, 29 * DAY), 33_333);
}

#[test]
fn decay_is_non_increasing_over_sample_times() {
    let mut prev = u64::MAX;
    for k in 0..60 {
        let v = decay(123_456_789, 1000, LOCK, 1000 + k * DAY / 2);
        assert!(v <= prev);
        prev = v;
    }
}

#[test]
fn decay_respects_shifted_start() {
    assert_eq!(decay(400, 100, 200, 150), 300);
    assert_eq!(decay(400, 100, 200, 100), 400);
    assert_eq!(decay(400, 100, 200, 300), 0);
}

#[test]
fn decay_no_overflow_on_extremes() {
    assert_eq!(decay(u64::MAX, 0, u64::MAX, 0), u64::MAX);
    assert_eq!(decay(u64::MAX, 0, u64::MAX, u64::MAX - 1), 1);
}

#[test]
fn name_length_bounds() {
    assert!(!is_valid_name("ab"));
    assert!(is_valid_name("abc"));
    assert!(is_valid_name("a decent token name"));
    assert!(is_valid_name(&"x".repeat(50)));
    assert!(!is_valid_name(&"x".repeat(51)));
}

#[test]
fn symbol_format() {
    assert!(is_valid_symbol("LOOP"));
    assert!(is_valid_symbol("a-Z"));
    assert!(!is_valid_symbol("ab"));
    assert!(!is_valid_symbol("TOOLONGSYMBOLX"));
    assert!(!is_valid_symbol("AB1"));
    assert!(!is_valid_symbol("AB "));
    assert!(is_valid_symbol("---"));
}
