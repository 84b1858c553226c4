use loopstake::store::Store;
use loopstake::transition::Error;

const LOCK: u64 = 2_592_000; // 30 days per duration unit
const DAY: u64 = 86_400;

fn fresh_store(now: u64) -> Store {
    Store::new(now, LOCK, DAY, DAY, vec![1, 3, 5], 14 * DAY)
}

#[test]
fn new_store_defaults() {
    let s = fresh_store(1000);
    let cfg = s.query_config();
    assert_eq!(cfg.lock_seconds_per_unit, LOCK);
    assert_eq!(cfg.day_length_seconds, DAY);
    assert_eq!(cfg.emission_period_seconds, DAY);
    assert!(!cfg.freeze);
    assert_eq!(cfg.freeze_lock_seconds, 14 * DAY);
    assert_eq!(cfg.last_distributed_at, 1000);
    assert_eq!(cfg.last_snapshot_day, 1000);
    assert_eq!(s.query_global_index(), 0);
    assert_eq!(s.query_total_reward(), 0);
    assert_eq!(s.query_total_reward_in_contract(), 0);
    assert_eq!(s.query_total_daily_reward(), 0);
    assert_eq!(s.query_duration_values(), vec![1, 3, 5]);
}

#[test]
fn stake_rejects_bad_duration_and_zero_amount() {
    let mut s = fresh_store(0);
    assert_eq!(s.stake(7, 2, 1000, 0), Err(Error::InvalidDuration));
    assert_eq!(s.stake(7, 1, 0, 0), Err(Error::ZeroAmount));
    assert_eq!(s.query_staked_by_user(7, 1), 0);
}

#[test]
fn stake_records_position_and_bucket() {
    let mut s = fresh_store(0);
    let out = s.stake(7, 1, 1_000_000, 0).unwrap();
    assert_eq!(out.new_principal, 1_000_000);
    assert_eq!(out.folded_reward, 0);
    assert_eq!(s.query_staked_by_user(7, 1), 1_000_000);
    assert_eq!(s.query_user_staked_time(7, 1), 0);
    assert_eq!(s.query_total_staked_by_duration(1), 1_000_000);
    assert_eq!(s.query_balance_by_duration(7, 1, 0), 1_000_000);
    assert_eq!(s.query_balance_by_duration(7, 1, 15 * DAY), 500_000);
    assert_eq!(s.query_total_balance(1, 15 * DAY), 500_000);
}

#[test]
fn stake_topup_folds_decayed_principal_and_resets_clock() {
    let mut s = fresh_store(0);
    s.stake(7, 1, 1_000_000, 0).unwrap();
    // half the window gone: the old principal has decayed to half
    let out = s.stake(7, 1, 200_000, 15 * DAY).unwrap();
    assert_eq!(out.new_principal, 700_000);
    assert_eq!(s.query_staked_by_user(7, 1), 700_000);
    assert_eq!(s.query_user_staked_time(7, 1), 15 * DAY);
    // the bucket follows the same rule (single staker)
    assert_eq!(s.query_total_balance(1, 15 * DAY), 700_000);
    assert_eq!(s.query_total_staked_by_duration(1), 700_000);
    // the merged balance decays over a full fresh window
    assert_eq!(s.query_balance_by_duration(7, 1, 30 * DAY), 350_000);
}

#[test]
fn aggregate_tracks_sum_of_two_same_instant_stakes() {
    let mut s = fresh_store(0);
    s.stake(1, 1, 600_000, 0).unwrap();
    s.stake(2, 1, 400_000, 0).unwrap();
    for k in 0..31 {
        let t = k * DAY;
        let a = s.query_balance_by_duration(1, 1, t);
        let b = s.query_balance_by_duration(2, 1, t);
        let total = s.query_total_balance(1, t);
        // merged aggregate loses at most one unit to rounding
        assert!(a + b <= total && total <= a + b + 1);
    }
}

#[test]
fn query_balance_sums_durations() {
    let mut s = fresh_store(0);
    s.stake(7, 1, 300_000, 0).unwrap();
    s.stake(7, 3, 600_000, 0).unwrap();
    assert_eq!(s.query_balance(7, 0).unwrap(), 900_000);
    // duration 1 locks 30 days, duration 3 locks 90 days
    let t = 15 * DAY;
    let expect = 150_000 + 600_000 * (90 - 15) / 90;
    assert_eq!(s.query_balance(7, t).unwrap(), expect);
}

#[test]
fn unstake_before_maturity_refused() {
    let mut s = fresh_store(0);
    s.stake(7, 1, 1_000_000, 0).unwrap();
    assert_eq!(s.unstake(7, 1, 30 * DAY - 1), Err(Error::StillLocked));
    assert_eq!(s.unstake(9, 1, 30 * DAY), Err(Error::NoPosition));
}

#[test]
fn unstake_returns_full_principal() {
    let mut s = fresh_store(0);
    s.stake(7, 1, 1_000_000, 0).unwrap();
    let out = s.unstake(7, 1, 30 * DAY).unwrap();
    assert_eq!(out.principal_returned, 1_000_000);
    assert_eq!(out.reward_paid, 0);
    assert_eq!(s.query_staked_by_user(7, 1), 0);
    assert_eq!(s.query_total_staked_by_duration(1), 0);
    assert_eq!(s.unstake(7, 1, 30 * DAY), Err(Error::NoPosition));
}

#[test]
fn freeze_blocks_claim_and_unstake_until_window_ends() {
    let mut s = fresh_store(0);
    s.stake(7, 1, 1_000_000, 0).unwrap();
    s.set_freeze(true, 30 * DAY);
    assert_eq!(s.claim(7, 1, 30 * DAY), Err(Error::Frozen));
    assert_eq!(s.unstake(7, 1, 31 * DAY), Err(Error::Frozen));
    // window is 14 days from freeze start
    assert_eq!(s.claim(7, 1, 44 * DAY - 1), Err(Error::Frozen));
    assert!(s.claim(7, 1, 44 * DAY).is_ok());
    assert!(s.unstake(7, 1, 44 * DAY).is_ok());
}

#[test]
fn unfreeze_lifts_the_block() {
    let mut s = fresh_store(0);
    s.stake(7, 1, 1_000_000, 0).unwrap();
    s.set_freeze(true, DAY);
    assert_eq!(s.claim(7, 1, 2 * DAY), Err(Error::Frozen));
    s.set_freeze(false, 2 * DAY);
    assert!(s.claim(7, 1, 2 * DAY).is_ok());
}

#[test]
fn claim_without_position_refused() {
    let mut s = fresh_store(0);
    assert_eq!(s.claim(7, 1, 100), Err(Error::NoPosition));
    assert_eq!(s.restake(7, 1, 100), Err(Error::NoPosition));
}

#[test]
fn add_duration_validates_and_deduplicates() {
    let mut s = fresh_store(0);
    assert_eq!(s.add_duration(0), Err(Error::InvalidDuration));
    assert_eq!(s.add_duration(u64::MAX / LOCK + 1), Err(Error::Overflow));
    s.add_duration(2).unwrap();
    s.add_duration(2).unwrap();
    assert_eq!(s.query_duration_values(), vec![1, 3, 5, 2]);
    assert!(s.stake(7, 2, 500, 0).is_ok());
}

#[test]
fn config_setters_validate() {
    let mut s = fresh_store(0);
    assert_eq!(s.set_emission_period_seconds(0), Err(Error::ZeroAmount));
    s.set_emission_period_seconds(2 * DAY).unwrap();
    assert_eq!(s.query_distribution_wait_time(), 2 * DAY);
    assert_eq!(s.set_day_length_seconds(0), Err(Error::ZeroAmount));
    s.set_day_length_seconds(DAY / 2).unwrap();
    assert_eq!(s.set_lock_seconds_per_unit(0), Err(Error::ZeroAmount));
    assert_eq!(s.set_lock_seconds_per_unit(u64::MAX / 4), Err(Error::Overflow));
    s.set_lock_seconds_per_unit(LOCK / 2).unwrap();
    assert_eq!(s.query_lock_time_frame(), LOCK / 2);
    s.set_freeze_lock_seconds(7 * DAY);
    assert_eq!(s.query_freeze_lock_time(), 7 * DAY);
}

#[test]
fn deposit_accumulates_and_guards_overflow() {
    let mut s = fresh_store(0);
    s.deposit(u64::MAX - 5).unwrap();
    assert_eq!(s.deposit(6), Err(Error::Overflow));
    s.deposit(5).unwrap();
    assert_eq!(s.query_total_reward_in_contract(), u64::MAX);
}
