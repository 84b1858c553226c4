use loopstake::store::Store;
use loopstake::transition::Error;

const LOCK: u64 = 2_592_000; // 30 days
const DAY: u64 = 86_400;
const UNIT: u128 = 1_000_000_000_000;

fn fresh_store(now: u64) -> Store {
    Store::new(now, LOCK, DAY, DAY, vec![1, 3, 5], 14 * DAY)
}

fn funded_single_staker() -> Store {
    let mut s = fresh_store(0);
    s.stake(1, 1, 1_000_000, 0).unwrap();
    s.deposit(100_000_000).unwrap();
    s.set_emission_per_period(1_000_000);
    s
}

#[test]
fn claim_before_any_distribution_pays_zero() {
    let mut s = fresh_store(0);
    s.stake(1, 1, 1_000_000, 0).unwrap();
    let out = s.claim(1, 1, DAY).unwrap();
    assert_eq!(out.paid, 0);
    assert_eq!(out.forfeited, 0);
}

#[test]
fn claim_pays_what_the_reward_query_reports() {
    let mut s = funded_single_staker();
    for k in 0..10u64 {
        s.distribute((k + 1) * DAY).unwrap();
    }
    let r = s.query_user_reward(1, 1).unwrap();
    assert!(r.user_reward > 0);
    assert_eq!(r.pending_reward, 0);
    let obligated_before = s.query_total_reward();
    let available_before = s.query_total_reward_in_contract();
    // at maturity the full reward is paid
    let out = s.claim(1, 1, 30 * DAY).unwrap();
    assert_eq!(out.paid, r.user_reward);
    assert_eq!(out.forfeited, 0);
    let total = out.paid + out.forfeited;
    assert_eq!(s.query_total_reward(), obligated_before - total);
    assert_eq!(s.query_total_reward_in_contract(), available_before - total);
    assert!(s.query_total_reward() <= s.query_total_reward_in_contract());
}

#[test]
fn second_claim_at_same_instant_pays_nothing() {
    let mut s = funded_single_staker();
    for k in 0..10u64 {
        s.distribute((k + 1) * DAY).unwrap();
    }
    let first = s.claim(1, 1, 30 * DAY).unwrap();
    assert!(first.paid > 0);
    let second = s.claim(1, 1, 30 * DAY).unwrap();
    assert_eq!(second.paid, 0);
    assert_eq!(second.forfeited, 0);
    let r = s.query_user_reward(1, 1).unwrap();
    assert_eq!(r.user_reward, 0);
    assert_eq!(r.pending_reward, 0);
}

#[test]
fn early_claim_pays_half_and_forfeits_the_rest() {
    let mut early = funded_single_staker();
    let mut late = funded_single_staker();
    for k in 0..10u64 {
        early.distribute((k + 1) * DAY).unwrap();
        late.distribute((k + 1) * DAY).unwrap();
    }
    // both claims see the same reconstructed reward
    let r_early = early.query_user_reward(1, 1).unwrap();
    let r_late = late.query_user_reward(1, 1).unwrap();
    assert_eq!(r_early, r_late);
    let r = r_early.user_reward + r_early.pending_reward;
    // claim at half the lock window: the early-claim penalty applies
    let out_early = early.claim(1, 1, 15 * DAY).unwrap();
    assert_eq!(out_early.paid, r / 2);
    assert_eq!(out_early.paid + out_early.forfeited, r);
    // claim at maturity: the full reward, nothing forfeited
    let out_late = late.claim(1, 1, 30 * DAY).unwrap();
    assert_eq!(out_late.paid, r);
    assert_eq!(out_late.forfeited, 0);
    if r % 2 == 0 {
        assert_eq!(out_early.paid * 2, out_late.paid);
    }
}

#[test]
fn restake_converts_reward_into_principal() {
    let mut s = funded_single_staker();
    assert_eq!(s.restake(1, 1, DAY), Err(Error::NothingToRestake));
    for k in 0..10u64 {
        s.distribute((k + 1) * DAY).unwrap();
    }
    let r = s.query_user_reward(1, 1).unwrap();
    let total = r.user_reward + r.pending_reward;
    let obligated_before = s.query_total_reward();
    let available_before = s.query_total_reward_in_contract();
    let t = 10 * DAY;
    let decayed = s.query_balance_by_duration(1, 1, t);
    let out = s.restake(1, 1, t).unwrap();
    assert_eq!(out.restaked, total);
    assert_eq!(out.new_principal, decayed + total);
    assert_eq!(s.query_staked_by_user(1, 1), decayed + total);
    assert_eq!(s.query_user_staked_time(1, 1), t);
    assert_eq!(s.query_total_reward(), obligated_before - total);
    assert_eq!(s.query_total_reward_in_contract(), available_before - total);
    assert!(s.query_total_reward() <= s.query_total_reward_in_contract());
    // the reward was consumed: nothing further to restake at this instant
    assert_eq!(s.restake(1, 1, t), Err(Error::NothingToRestake));
}

#[test]
fn restake_leaves_other_positions_untouched() {
    let mut s = fresh_store(0);
    s.stake(1, 1, 500_000, 0).unwrap();
    s.stake(2, 1, 500_000, 0).unwrap();
    s.deposit(100_000_000).unwrap();
    s.set_emission_per_period(1_000_000);
    for k in 0..5u64 {
        s.distribute((k + 1) * DAY).unwrap();
    }
    let a_before = s.query_user_reward(1, 1).unwrap();
    let a_staked = s.query_staked_by_user(1, 1);
    let g_before = s.query_global_index();
    s.restake(2, 1, 5 * DAY).unwrap();
    // the other participant's accrued reward and position are untouched
    assert_eq!(s.query_user_reward(1, 1).unwrap(), a_before);
    assert_eq!(s.query_staked_by_user(1, 1), a_staked);
    assert_eq!(s.query_user_staked_time(1, 1), 0);
    assert_eq!(s.query_global_index(), g_before);
}

#[test]
fn unstake_pays_principal_plus_full_reward() {
    let mut s = funded_single_staker();
    for k in 0..10u64 {
        s.distribute((k + 1) * DAY).unwrap();
    }
    let r = s.query_user_reward(1, 1).unwrap();
    let total = r.user_reward + r.pending_reward;
    let out = s.unstake(1, 1, 30 * DAY).unwrap();
    assert_eq!(out.principal_returned, 1_000_000);
    assert_eq!(out.reward_paid, total);
    assert!(s.query_total_reward() <= s.query_total_reward_in_contract());
    assert_eq!(s.query_user_reward(1, 1), Err(Error::NoPosition));
}

#[test]
fn stake_topup_folds_owed_reward_into_pending() {
    let mut s = funded_single_staker();
    for k in 0..5u64 {
        s.distribute((k + 1) * DAY).unwrap();
    }
    let r = s.query_user_reward(1, 1).unwrap();
    assert!(r.user_reward > 0);
    let out = s.stake(1, 1, 100_000, 5 * DAY).unwrap();
    assert_eq!(out.folded_reward, r.user_reward);
    let after = s.query_user_reward(1, 1).unwrap();
    assert_eq!(after.user_reward, 0);
    assert_eq!(after.pending_reward, r.user_reward);
    // the pending carry-over is paid out by a later claim
    let claim = s.claim(1, 1, 5 * DAY).unwrap();
    assert_eq!(claim.paid + claim.forfeited, r.user_reward);
}

/// Reference reward computation: re-walks every distribution from the
/// position's mint time, grouping each period's index increment under the
/// day bucket it was recorded in, and applying the decay weight per day.
fn reference_reward(
    days: &[(u64, u128)],
    principal: u64,
    mint: u64,
    lock: u64,
) -> u64 {
    let mut sum: u128 = 0;
    for &(day, delta) in days {
        if day < mint + lock {
            let rem = (mint + lock - day) as u128;
            sum += delta * (principal as u128) * rem / (lock as u128);
        }
    }
    (sum / UNIT) as u64
}

/// Lazy reconstruction equals incremental tracking: over a synthetic
/// timeline of fifty distributions with a pseudo-random emission schedule
/// (two periods per day bucket), the engine's lazily reconstructed reward
/// equals a reference that re-walks the full distribution history.
#[test]
fn reconstruction_matches_full_history_replay() {
    let period = DAY / 2;
    let mut s = Store::new(0, LOCK, DAY, period, vec![1, 3, 5], 14 * DAY);
    s.stake(1, 1, 1_000_000, 0).unwrap();
    s.deposit(60_000_000).unwrap();
    let mut days: Vec<(u64, u128)> = Vec::new();
    let mut lsd: u64 = 0;
    let mut rng: u64 = 0x2545F491;
    for k in 0..50u64 {
        rng = rng.wrapping_mul(6364136223846793005).wrapping_add(1442695040888963407);
        let emission = 100_000 + rng % 900_000;
        s.set_emission_per_period(emission);
        let g_before = s.query_global_index();
        s.distribute((k + 1) * period).unwrap();
        let inc = s.query_global_index() - g_before;
        // incremental tracking: the day bucket this period was recorded in
        let start = k * period;
        if start + period >= lsd + DAY {
            lsd += DAY;
        }
        match days.iter_mut().find(|e| e.0 == lsd) {
            Some(e) => e.1 += inc,
            None => days.push((lsd, inc)),
        }
        let lazy = s.query_user_reward(1, 1).unwrap();
        let replayed = reference_reward(&days, 1_000_000, 0, LOCK);
        assert_eq!(lazy.user_reward, replayed);
        assert_eq!(lazy.pending_reward, 0);
    }
}
