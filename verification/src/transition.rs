//! Mathematical transitions of the accrual engine.
//!
//! Each operation of the engine is specified here as a total function from a
//! store model (plus arguments and the host clock) to either the successor
//! model with the operation's observable effect, or the error the operation
//! must surface with the store untouched.  The executable operations in
//! [`crate::store`] are proved to return exactly what these functions say.

use vstd::prelude::*;
use crate::decay::spec_decay;
use crate::model::{
    bucket_or_new, find_bucket, find_pos, lock_len, owed_fits, owed_scaled, owed_total,
    total_power, BucketModel, ConfigModel, PositionModel, SnapshotModel, StoreModel,
    REWARD_CALC_UNIT,
};

verus! {

/// Why an operation was refused.  The first six variants are recoverable
/// precondition failures; `InsufficientFunds` and `NothingToRestake` are
/// recoverable business refusals; `AccountingViolation` reports an internal
/// aggregate that would go negative and `Overflow` a machine-width bound
/// that would be exceeded — both are surfaced with no state mutated.
#[derive(Clone, Copy, Debug, PartialEq, Eq, Structural)]
pub enum Error {
    InvalidDuration,
    ZeroAmount,
    NoPosition,
    StillLocked,
    Frozen,
    TooEarly,
    NothingToRestake,
    InsufficientFunds,
    AccountingViolation,
    Overflow,
}

/// Observable effect of a successful stake.
#[verifier::ext_equal]
pub ghost struct StakeEffect {
    /// The combined principal after the decay-then-merge fold.
    pub new_principal: int,
    /// The reconstructed reward folded into the pending carry-over.
    pub folded_reward: int,
}

/// Observable effect of a successful restake.
#[verifier::ext_equal]
pub ghost struct RestakeEffect {
    /// The owed reward that was converted into stake.
    pub restaked: int,
    pub new_principal: int,
}

/// Observable effect of a successful claim.
#[verifier::ext_equal]
pub ghost struct ClaimEffect {
    /// Reward paid to the participant.
    pub paid: int,
    /// Early-claim penalty forwarded to the community address.
    pub forfeited: int,
}

/// Observable effect of a successful unstake.
#[verifier::ext_equal]
pub ghost struct UnstakeEffect {
    /// The un-decayed principal refunded in full.
    pub principal_returned: int,
    /// The full owed reward paid alongside it.
    pub reward_paid: int,
}

/// Observable effect of a successful distribution.
#[verifier::ext_equal]
pub ghost struct DistributeEffect {
    /// How many elapsed emission periods were processed.
    pub periods: int,
}

/// Whether claims and unstakes are blocked by an active freeze window.
pub open spec fn frozen(m: StoreModel, now: int) -> bool {
    m.config.freeze && now < m.config.freeze_start + m.config.freeze_lock_seconds
}

/// Stake `amount` for `(p, d)` at time `now`: fold the owed reward into the
/// pending carry-over, merge the decayed old principal with the deposit,
/// restart the lock clock, and update the duration bucket by the same
/// decay-then-merge rule.
pub open spec fn spec_stake(m: StoreModel, p: int, d: int, amount: int, now: int) -> Result<
    (StoreModel, StakeEffect),
    Error,
> {
    if !m.config.allowed_durations.contains(d) {
        Err(Error::InvalidDuration)
    } else if amount <= 0 {
        Err(Error::ZeroAmount)
    } else {
        let lock = lock_len(m, d);
        let i = find_pos(m.positions, p, d);
        let old_principal = if i >= 0 {
            m.positions[i].principal
        } else {
            0
        };
        let old_pending = if i >= 0 {
            m.positions[i].pending_reward
        } else {
            0
        };
        let folded = if i >= 0 {
            owed_scaled(m, m.positions[i]) / (REWARD_CALC_UNIT as int)
        } else {
            0
        };
        let prev_decayed = if i >= 0 {
            spec_decay(old_principal, m.positions[i].mint_time, lock, now)
        } else {
            0
        };
        let pending1 = old_pending + folded;
        let principal1 = prev_decayed + amount;
        let b = bucket_or_new(m, d);
        let agg1 = spec_decay(b.decaying_total, b.decaying_mint_time, lock, now) + amount;
        if i >= 0 && !owed_fits(m, m.positions[i]) {
            Err(Error::Overflow)
        } else if principal1 > u64::MAX {
            Err(Error::Overflow)
        } else if b.total_raw_staked < old_principal {
            Err(Error::AccountingViolation)
        } else if b.total_raw_staked - old_principal + principal1 > u64::MAX {
            Err(Error::Overflow)
        } else if agg1 > u64::MAX {
            Err(Error::Overflow)
        } else {
            let raw1 = b.total_raw_staked - old_principal + principal1;
            let newpos = PositionModel {
                participant: p,
                duration: d,
                principal: principal1,
                mint_time: now,
                last_claimed_time: now,
                synced_index: m.global_index,
                pending_reward: pending1,
            };
            let positions1 = if i >= 0 {
                m.positions.update(i, newpos)
            } else {
                m.positions.push(newpos)
            };
            let newbkt = BucketModel {
                duration: d,
                total_raw_staked: raw1,
                decaying_total: agg1,
                decaying_mint_time: now,
            };
            let j = find_bucket(m.buckets, d);
            let buckets1 = if j >= 0 {
                m.buckets.update(j, newbkt)
            } else {
                m.buckets.push(newbkt)
            };
            Ok(
                (
                    StoreModel { positions: positions1, buckets: buckets1, ..m },
                    StakeEffect { new_principal: principal1, folded_reward: folded },
                ),
            )
        }
    }
}

/// Restake the owed reward of `(p, d)` at time `now`: the reward leaves the
/// accounting totals and is merged into the position as a fresh deposit.
pub open spec fn spec_restake(m: StoreModel, p: int, d: int, now: int) -> Result<
    (StoreModel, RestakeEffect),
    Error,
> {
    let i = find_pos(m.positions, p, d);
    if i < 0 {
        Err(Error::NoPosition)
    } else {
        let pos = m.positions[i];
        let lock = lock_len(m, d);
        if !owed_fits(m, pos) {
            Err(Error::Overflow)
        } else {
            let r = owed_total(m, pos);
            let prev_decayed = spec_decay(pos.principal, pos.mint_time, lock, now);
            let principal1 = prev_decayed + r;
            let b = bucket_or_new(m, d);
            let agg1 = spec_decay(b.decaying_total, b.decaying_mint_time, lock, now) + r;
            if r == 0 {
                Err(Error::NothingToRestake)
            } else if m.total_obligated < r || m.total_available < r {
                Err(Error::AccountingViolation)
            } else if principal1 > u64::MAX {
                Err(Error::Overflow)
            } else if b.total_raw_staked < pos.principal {
                Err(Error::AccountingViolation)
            } else if b.total_raw_staked - pos.principal + principal1 > u64::MAX {
                Err(Error::Overflow)
            } else if agg1 > u64::MAX {
                Err(Error::Overflow)
            } else {
                let raw1 = b.total_raw_staked - pos.principal + principal1;
                let newpos = PositionModel {
                    principal: principal1,
                    mint_time: now,
                    last_claimed_time: now,
                    synced_index: m.global_index,
                    pending_reward: 0,
                    ..pos
                };
                let newbkt = BucketModel {
                    duration: d,
                    total_raw_staked: raw1,
                    decaying_total: agg1,
                    decaying_mint_time: now,
                };
                let j = find_bucket(m.buckets, d);
                let buckets1 = if j >= 0 {
                    m.buckets.update(j, newbkt)
                } else {
                    m.buckets.push(newbkt)
                };
                Ok(
                    (
                        StoreModel {
                            positions: m.positions.update(i, newpos),
                            buckets: buckets1,
                            total_obligated: m.total_obligated - r,
                            total_available: m.total_available - r,
                            ..m
                        },
                        RestakeEffect { restaked: r, new_principal: principal1 },
                    ),
                )
            }
        }
    }
}

/// Claim the owed reward of `(p, d)` at time `now`.  Before maturity, half
/// the reward is paid and the other half forfeited to the community
/// address; at or after maturity the full reward is paid.
pub open spec fn spec_claim(m: StoreModel, p: int, d: int, now: int) -> Result<
    (StoreModel, ClaimEffect),
    Error,
> {
    if frozen(m, now) {
        Err(Error::Frozen)
    } else {
        let i = find_pos(m.positions, p, d);
        if i < 0 {
            Err(Error::NoPosition)
        } else {
            let pos = m.positions[i];
            if !owed_fits(m, pos) {
                Err(Error::Overflow)
            } else {
                let r = owed_total(m, pos);
                if m.total_obligated < r || m.total_available < r {
                    Err(Error::AccountingViolation)
                } else {
                    let locked = now < pos.mint_time + lock_len(m, d);
                    let paid = if locked {
                        r / 2
                    } else {
                        r
                    };
                    let newpos = PositionModel {
                        last_claimed_time: now,
                        synced_index: m.global_index,
                        pending_reward: 0,
                        ..pos
                    };
                    Ok(
                        (
                            StoreModel {
                                positions: m.positions.update(i, newpos),
                                total_obligated: m.total_obligated - r,
                                total_available: m.total_available - r,
                                ..m
                            },
                            ClaimEffect { paid: paid, forfeited: r - paid },
                        ),
                    )
                }
            }
        }
    }
}

/// Unstake `(p, d)` at time `now`: only after maturity; refunds the
/// un-decayed principal in full plus the full owed reward, deletes the
/// position and removes its share from the duration bucket.
pub open spec fn spec_unstake(m: StoreModel, p: int, d: int, now: int) -> Result<
    (StoreModel, UnstakeEffect),
    Error,
> {
    if frozen(m, now) {
        Err(Error::Frozen)
    } else {
        let i = find_pos(m.positions, p, d);
        if i < 0 {
            Err(Error::NoPosition)
        } else {
            let pos = m.positions[i];
            let lock = lock_len(m, d);
            if now - pos.mint_time < lock {
                Err(Error::StillLocked)
            } else if !owed_fits(m, pos) {
                Err(Error::Overflow)
            } else {
                let r = owed_total(m, pos);
                let b = bucket_or_new(m, d);
                let agg_now = spec_decay(b.decaying_total, b.decaying_mint_time, lock, now);
                let pos_now = spec_decay(pos.principal, pos.mint_time, lock, now);
                if m.total_obligated < r || m.total_available < r {
                    Err(Error::AccountingViolation)
                } else if b.total_raw_staked < pos.principal || agg_now < pos_now {
                    Err(Error::AccountingViolation)
                } else {
                    let newbkt = BucketModel {
                        duration: d,
                        total_raw_staked: b.total_raw_staked - pos.principal,
                        decaying_total: agg_now - pos_now,
                        decaying_mint_time: now,
                    };
                    let j = find_bucket(m.buckets, d);
                    let buckets1 = if j >= 0 {
                        m.buckets.update(j, newbkt)
                    } else {
                        m.buckets.push(newbkt)
                    };
                    Ok(
                        (
                            StoreModel {
                                positions: m.positions.remove(i),
                                buckets: buckets1,
                                total_obligated: m.total_obligated - r,
                                total_available: m.total_available - r,
                                ..m
                            },
                            UnstakeEffect { principal_returned: pos.principal, reward_paid: r },
                        ),
                    )
                }
            }
        }
    }
}

/// Close the snapshot-log entry at `day` (necessarily the final entry, as
/// day keys are strictly increasing and bounded by the open day) with the
/// given index value; a no-op where no entry for `day` exists.
pub open spec fn spec_close(snaps: Seq<SnapshotModel>, day: int, pre: int) -> Seq<SnapshotModel> {
    if snaps.len() > 0 && snaps.last().day == day {
        snaps.update(
            snaps.len() - 1,
            SnapshotModel { last_index: Some(pre), ..snaps.last() },
        )
    } else {
        snaps
    }
}

/// Open a snapshot-log entry at `day` with first index `g`, where none
/// exists yet.
pub open spec fn spec_ensure_open(snaps: Seq<SnapshotModel>, day: int, g: int) -> Seq<
    SnapshotModel,
> {
    if snaps.len() > 0 && snaps.last().day == day {
        snaps
    } else {
        snaps.push(SnapshotModel { day: day, first_index: g, last_index: None })
    }
}

/// Process one elapsed emission period.
///
/// The period's start is the current `last_distributed_at`, which always
/// advances by one period length.  A zero emission makes the period a
/// no-op.  Otherwise the emission must be covered by unobligated deposits;
/// the index advances by `emission * UNIT / total_power` (with the power
/// evaluated as of the period's start) unless no power is staked, and the
/// snapshot log is rolled over when the period crosses a day boundary: the
/// entry at the old day closes at the pre-increment index and an entry at
/// the new day opens at the post-increment index.
pub open spec fn dist_step(m: StoreModel) -> Result<StoreModel, Error> {
    let start = m.config.last_distributed_at;
    let advanced = ConfigModel {
        last_distributed_at: start + m.config.emission_period_seconds,
        ..m.config
    };
    if m.emission_per_period == 0 {
        Ok(StoreModel { config: advanced, ..m })
    } else if m.total_available - m.total_obligated < m.emission_per_period {
        Err(Error::InsufficientFunds)
    } else {
        let power = total_power(m.buckets, m.config.lock_seconds_per_unit, start);
        let pre = m.global_index;
        let g1 = if power > 0 {
            pre + m.emission_per_period * (REWARD_CALC_UNIT as int) / power
        } else {
            pre
        };
        let obl1 = if power > 0 {
            m.total_obligated + m.emission_per_period
        } else {
            m.total_obligated
        };
        if g1 > u128::MAX {
            Err(Error::Overflow)
        } else {
            let crosses = start + m.config.emission_period_seconds >= m.config.last_snapshot_day
                + m.config.day_length_seconds;
            let day1 = if crosses {
                m.config.last_snapshot_day + m.config.day_length_seconds
            } else {
                m.config.last_snapshot_day
            };
            let snaps1 = if crosses {
                spec_close(m.snapshots, m.config.last_snapshot_day, pre)
            } else {
                m.snapshots
            };
            let snaps2 = spec_ensure_open(snaps1, day1, g1);
            Ok(
                StoreModel {
                    config: ConfigModel { last_snapshot_day: day1, ..advanced },
                    global_index: g1,
                    total_obligated: obl1,
                    snapshots: snaps2,
                    ..m
                },
            )
        }
    }
}

/// Process `k` consecutive periods, oldest first; the first refusal aborts
/// the whole distribution.
pub open spec fn dist_steps(m: StoreModel, k: nat) -> Result<StoreModel, Error>
    decreases k,
{
    if k == 0 {
        Ok(m)
    } else {
        match dist_step(m) {
            Ok(m1) => dist_steps(m1, (k - 1) as nat),
            Err(e) => Err(e),
        }
    }
}

/// Processing `a + b` periods is processing `a`, then `b` more.
pub proof fn lemma_dist_steps_split(m: StoreModel, a: nat, b: nat)
    ensures
        dist_steps(m, a + b) == (match dist_steps(m, a) {
            Ok(ma) => dist_steps(ma, b),
            Err(e) => Err::<StoreModel, Error>(e),
        }),
    decreases a,
{
    if a != 0 {
        match dist_step(m) {
            Ok(m1) => {
                lemma_dist_steps_split(m1, (a - 1) as nat, b);
                assert(dist_steps(m, a + b) == dist_steps(m1, ((a + b) - 1) as nat));
            },
            Err(e) => {
                assert(dist_steps(m, a + b) == Err::<StoreModel, Error>(e));
            },
        }
    }
}

/// Distribution periods never touch the position or bucket ledgers, the
/// deposits, the emission setting or the freeze and lock parameters.
pub proof fn lemma_dist_steps_frame(m: StoreModel, k: nat)
    ensures
        dist_steps(m, k) matches Ok(m1) ==> m1.positions == m.positions && m1.buckets == m.buckets
            && m1.total_available == m.total_available && m1.emission_per_period
            == m.emission_per_period && m1.config.lock_seconds_per_unit
            == m.config.lock_seconds_per_unit && m1.config.allowed_durations
            == m.config.allowed_durations && m1.config.freeze == m.config.freeze,
    decreases k,
{
    if k != 0 {
        match dist_step(m) {
            Ok(m1) => {
                lemma_dist_steps_frame(m1, (k - 1) as nat);
            },
            Err(_) => {},
        }
    }
}

/// Distribute at time `now`: processes every fully elapsed emission period
/// since `last_distributed_at`; refused as too early when none has elapsed.
pub open spec fn spec_distribute(m: StoreModel, now: int) -> Result<
    (StoreModel, DistributeEffect),
    Error,
> {
    let periods = (now - m.config.last_distributed_at) / m.config.emission_period_seconds;
    if periods <= 0 {
        Err(Error::TooEarly)
    } else {
        match dist_steps(m, periods as nat) {
            Ok(m1) => Ok((m1, DistributeEffect { periods: periods })),
            Err(e) => Err(e),
        }
    }
}

} // verus!
