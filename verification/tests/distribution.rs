use loopstake::store::Store;
use loopstake::transition::Error;

const LOCK: u64 = 2_592_000; // 30 days
const DAY: u64 = 86_400;
const UNIT: u128 = 1_000_000_000_000;

fn fresh_store(now: u64) -> Store {
    Store::new(now, LOCK, DAY, DAY, vec![1, 3, 5], 14 * DAY)
}

#[test]
fn distribute_too_early() {
    let mut s = fresh_store(0);
    s.deposit(10_000_000).unwrap();
    s.set_emission_per_period(1_000_000);
    assert_eq!(s.distribute(DAY - 1), Err(Error::TooEarly));
    assert!(s.distribute(DAY).is_ok());
}

#[test]
fn distribute_requires_funds() {
    let mut s = fresh_store(0);
    s.stake(7, 1, 1_000_000, 0).unwrap();
    s.set_emission_per_period(1_000_000);
    s.deposit(999_999).unwrap();
    assert_eq!(s.distribute(DAY), Err(Error::InsufficientFunds));
    // a refusal leaves everything untouched
    assert_eq!(s.query_global_index(), 0);
    assert_eq!(s.query_last_distribution_time(), 0);
    s.deposit(1).unwrap();
    assert!(s.distribute(DAY).is_ok());
}

#[test]
fn distribute_with_zero_emission_only_advances_clock() {
    let mut s = fresh_store(0);
    s.stake(7, 1, 1_000_000, 0).unwrap();
    let out = s.distribute(3 * DAY).unwrap();
    assert_eq!(out.periods, 3);
    assert_eq!(s.query_global_index(), 0);
    assert_eq!(s.query_total_reward(), 0);
    assert_eq!(s.query_last_distribution_time(), 3 * DAY);
}

#[test]
fn distribute_with_no_stakers_obligates_nothing() {
    let mut s = fresh_store(0);
    s.deposit(10_000_000).unwrap();
    s.set_emission_per_period(1_000_000);
    let out = s.distribute(2 * DAY).unwrap();
    assert_eq!(out.periods, 2);
    assert_eq!(s.query_global_index(), 0);
    assert_eq!(s.query_total_reward(), 0);
}

/// Ten daily distributions against a single decaying staker: the index
/// advances each day by `emission * UNIT / power(day_start)`, where the
/// power follows the closed-form linear decay of the sole stake.
#[test]
fn index_sequence_matches_closed_form_decay() {
    let mut s = fresh_store(0);
    s.stake(1, 1, 1_000_000, 0).unwrap();
    s.deposit(100_000_000).unwrap();
    s.set_emission_per_period(1_000_000);
    let mut expected: u128 = 0;
    for k in 0..10u64 {
        s.distribute((k + 1) * DAY).unwrap();
        let power = 1_000_000u128 * ((LOCK - k * DAY) as u128) / (LOCK as u128);
        expected += 1_000_000u128 * UNIT / power;
        assert_eq!(s.query_global_index(), expected);
        // conservation after every distribution
        assert!(s.query_total_reward() <= s.query_total_reward_in_contract());
        assert_eq!(s.query_total_reward(), (k + 1) * 1_000_000);
    }
    // the first day's increment is exactly one UNIT: full power
    let first = 1_000_000u128 * UNIT / 1_000_000u128;
    assert_eq!(first, UNIT);
}

#[test]
fn one_call_catches_up_all_elapsed_periods() {
    let mut a = fresh_store(0);
    a.stake(1, 1, 1_000_000, 0).unwrap();
    a.deposit(100_000_000).unwrap();
    a.set_emission_per_period(1_000_000);
    for k in 0..5u64 {
        a.distribute((k + 1) * DAY).unwrap();
    }
    let mut b = fresh_store(0);
    b.stake(1, 1, 1_000_000, 0).unwrap();
    b.deposit(100_000_000).unwrap();
    b.set_emission_per_period(1_000_000);
    let out = b.distribute(5 * DAY).unwrap();
    assert_eq!(out.periods, 5);
    assert_eq!(a.query_global_index(), b.query_global_index());
    assert_eq!(a.query_total_reward(), b.query_total_reward());
    assert_eq!(a.query_last_distribution_time(), b.query_last_distribution_time());
    let ra = a.query_user_reward(1, 1).unwrap();
    let rb = b.query_user_reward(1, 1).unwrap();
    assert_eq!(ra, rb);
}

#[test]
fn powers_of_all_duration_buckets_share_the_emission() {
    let mut s = fresh_store(0);
    s.stake(1, 1, 600_000, 0).unwrap();
    s.stake(2, 3, 400_000, 0).unwrap();
    s.deposit(10_000_000).unwrap();
    s.set_emission_per_period(1_000_000);
    s.distribute(DAY).unwrap();
    // denominator is the sum of both buckets' powers at period start
    let expected = 1_000_000u128 * UNIT / (600_000u128 + 400_000u128);
    assert_eq!(s.query_global_index(), expected);
}
