//! Executable state of the staking engine and its verified operations.
//!
//! The [`Store`] is an explicit state object: every operation takes it by
//! mutable reference together with the host clock's current time in seconds
//! and is proved to perform exactly the transition of
//! [`crate::transition`].  All token movement (transfer in of stakes,
//! payout of rewards and principals) is delegated to the host; the
//! operations return the amounts to move.

use vstd::prelude::*;
use crate::decay::{decay, spec_decay};
use crate::model::{
    self, bucket_matches, bucket_or_new, bucket_power, find_bucket, find_pos, lock_len,
    lemma_find_bucket_first, lemma_find_bucket_props, lemma_find_pos_first, lemma_find_pos_props,
    owed_fits, owed_scaled, owed_total, pos_matches, user_power_sum, BucketModel, ConfigModel,
    PositionModel, SnapshotModel, StoreModel, REWARD_CALC_UNIT,
};
use crate::transition::{
    dist_step, dist_steps, lemma_dist_steps_split, spec_claim, spec_close, spec_distribute,
    spec_ensure_open, spec_restake, spec_stake, spec_unstake, ClaimEffect, DistributeEffect,
    Error, RestakeEffect, StakeEffect, UnstakeEffect,
};

verus! {

/// Process-wide parameters and distribution bookkeeping.
#[derive(Clone, Debug)]
pub struct Config {
    pub lock_seconds_per_unit: u64,
    pub day_length_seconds: u64,
    pub emission_period_seconds: u64,
    pub allowed_durations: Vec<u64>,
    pub freeze: bool,
    pub freeze_start: u64,
    pub freeze_lock_seconds: u64,
    pub last_distributed_at: u64,
    pub last_snapshot_day: u64,
}

impl View for Config {
    type V = ConfigModel;

    open spec fn view(&self) -> ConfigModel {
        ConfigModel {
            lock_seconds_per_unit: self.lock_seconds_per_unit as int,
            day_length_seconds: self.day_length_seconds as int,
            emission_period_seconds: self.emission_period_seconds as int,
            allowed_durations: self.allowed_durations@.map_values(|d: u64| d as int),
            freeze: self.freeze,
            freeze_start: self.freeze_start as int,
            freeze_lock_seconds: self.freeze_lock_seconds as int,
            last_distributed_at: self.last_distributed_at as int,
            last_snapshot_day: self.last_snapshot_day as int,
        }
    }
}

/// One participant's stake in one duration: the position record (principal,
/// lock clock) together with its reward-sync record (synced index, pending
/// carry-over).
#[derive(Clone, Copy, Debug, PartialEq, Eq, Structural)]
pub struct PositionEntry {
    pub participant: u64,
    pub duration: u64,
    pub principal: u64,
    pub mint_time: u64,
    pub last_claimed_time: u64,
    pub synced_index: u128,
    pub pending_reward: u64,
}

impl View for PositionEntry {
    type V = PositionModel;

    open spec fn view(&self) -> PositionModel {
        PositionModel {
            participant: self.participant as int,
            duration: self.duration as int,
            principal: self.principal as int,
            mint_time: self.mint_time as int,
            last_claimed_time: self.last_claimed_time as int,
            synced_index: self.synced_index as int,
            pending_reward: self.pending_reward as int,
        }
    }
}

/// Per-duration aggregate ledger.
#[derive(Clone, Copy, Debug, PartialEq, Eq, Structural)]
pub struct DurationBucket {
    pub duration: u64,
    pub total_raw_staked: u64,
    pub decaying_total: u64,
    pub decaying_mint_time: u64,
}

impl View for DurationBucket {
    type V = BucketModel;

    open spec fn view(&self) -> BucketModel {
        BucketModel {
            duration: self.duration as int,
            total_raw_staked: self.total_raw_staked as int,
            decaying_total: self.decaying_total as int,
            decaying_mint_time: self.decaying_mint_time as int,
        }
    }
}

/// One day-keyed snapshot-log entry.
#[derive(Clone, Copy, Debug, PartialEq, Eq, Structural)]
pub struct SnapshotEntry {
    pub day: u64,
    pub first_index: u128,
    pub last_index: Option<u128>,
}

impl View for SnapshotEntry {
    type V = SnapshotModel;

    open spec fn view(&self) -> SnapshotModel {
        SnapshotModel {
            day: self.day as int,
            first_index: self.first_index as int,
            last_index: match self.last_index {
                Option::Some(l) => Option::Some(l as int),
                Option::None => Option::None,
            },
        }
    }
}

/// Reconstructed reward of one position, as the reward query reports it.
#[derive(Clone, Copy, Debug, PartialEq, Eq, Structural)]
pub struct UserRewardResponse {
    /// Reward owed by the snapshot log beyond the synced index (descaled).
    pub user_reward: u64,
    /// Carry-over not yet paid out or folded into the principal.
    pub pending_reward: u64,
}

/// Observable result of a successful stake.
#[derive(Clone, Copy, Debug, PartialEq, Eq, Structural)]
pub struct StakeOutcome {
    pub new_principal: u64,
    pub folded_reward: u64,
}

impl View for StakeOutcome {
    type V = StakeEffect;

    open spec fn view(&self) -> StakeEffect {
        StakeEffect {
            new_principal: self.new_principal as int,
            folded_reward: self.folded_reward as int,
        }
    }
}

/// Observable result of a successful restake.
#[derive(Clone, Copy, Debug, PartialEq, Eq, Structural)]
pub struct RestakeOutcome {
    pub restaked: u64,
    pub new_principal: u64,
}

impl View for RestakeOutcome {
    type V = RestakeEffect;

    open spec fn view(&self) -> RestakeEffect {
        RestakeEffect { restaked: self.restaked as int, new_principal: self.new_principal as int }
    }
}

/// Observable result of a successful claim: what to pay the participant and
/// what to forward to the community address.
#[derive(Clone, Copy, Debug, PartialEq, Eq, Structural)]
pub struct ClaimOutcome {
    pub paid: u64,
    pub forfeited: u64,
}

impl View for ClaimOutcome {
    type V = ClaimEffect;

    open spec fn view(&self) -> ClaimEffect {
        ClaimEffect { paid: self.paid as int, forfeited: self.forfeited as int }
    }
}

/// Observable result of a successful unstake: the refunded principal and the
/// reward paid alongside it.
#[derive(Clone, Copy, Debug, PartialEq, Eq, Structural)]
pub struct UnstakeOutcome {
    pub principal_returned: u64,
    pub reward_paid: u64,
}

impl View for UnstakeOutcome {
    type V = UnstakeEffect;

    open spec fn view(&self) -> UnstakeEffect {
        UnstakeEffect {
            principal_returned: self.principal_returned as int,
            reward_paid: self.reward_paid as int,
        }
    }
}

/// Observable result of a successful distribution.
#[derive(Clone, Copy, Debug, PartialEq, Eq, Structural)]
pub struct DistributeOutcome {
    pub periods: u64,
}

impl View for DistributeOutcome {
    type V = DistributeEffect;

    open spec fn view(&self) -> DistributeEffect {
        DistributeEffect { periods: self.periods as int }
    }
}

/// The whole engine state: configuration, reward accumulator, the duration
/// bucket ledger, the position ledger and the snapshot log.
pub struct Store {
    pub config: Config,
    /// Admin-set reward emitted per distribution period.
    pub emission_per_period: u64,
    /// Monotonic fixed-point reward accumulator.
    pub global_index: u128,
    /// Reward promised through the index but not yet paid out.
    pub total_obligated: u64,
    /// Reward tokens deposited but not yet paid out.
    pub total_available: u64,
    pub buckets: Vec<DurationBucket>,
    pub positions: Vec<PositionEntry>,
    pub snapshots: Vec<SnapshotEntry>,
}

impl View for Store {
    type V = StoreModel;

    open spec fn view(&self) -> StoreModel {
        StoreModel {
            config: self.config@,
            emission_per_period: self.emission_per_period as int,
            global_index: self.global_index as int,
            total_obligated: self.total_obligated as int,
            total_available: self.total_available as int,
            buckets: self.buckets@.map_values(|b: DurationBucket| b@),
            positions: self.positions@.map_values(|p: PositionEntry| p@),
            snapshots: self.snapshots@.map_values(|e: SnapshotEntry| e@),
        }
    }
}

impl Store {
    /// Well-formedness of the store; established by [`Store::new`] and
    /// preserved by every operation.
    pub open spec fn wf(&self) -> bool {
        model::wf(self@)
    }

    /// The host clock is monotonic: `now` is no earlier than any recorded
    /// timestamp.
    pub open spec fn fresh(&self, now: u64) -> bool {
        model::fresh(self@, now as int)
    }

    /// Create a fresh store at time `now`.  Mirrors contract instantiation:
    /// no positions, no snapshots, a zero index and zero reward totals.
    pub fn new(
        now: u64,
        lock_seconds_per_unit: u64,
        day_length_seconds: u64,
        emission_period_seconds: u64,
        allowed_durations: Vec<u64>,
        freeze_lock_seconds: u64,
    ) -> (s: Store)
        requires
            0 < lock_seconds_per_unit,
            0 < day_length_seconds,
            0 < emission_period_seconds,
            allowed_durations@.len() > 0,
            forall|i: int|
                0 <= i < allowed_durations@.len() ==> 0 < #[trigger] allowed_durations@[i]
                    && lock_seconds_per_unit * allowed_durations@[i] <= u64::MAX,
        ensures
            s.wf(),
            s.fresh(now),
            model::raw_consistent(s@),
            s@ == (StoreModel {
                config: ConfigModel {
                    lock_seconds_per_unit: lock_seconds_per_unit as int,
                    day_length_seconds: day_length_seconds as int,
                    emission_period_seconds: emission_period_seconds as int,
                    allowed_durations: allowed_durations@.map_values(|d: u64| d as int),
                    freeze: false,
                    freeze_start: now as int,
                    freeze_lock_seconds: freeze_lock_seconds as int,
                    last_distributed_at: now as int,
                    last_snapshot_day: now as int,
                },
                emission_per_period: 0,
                global_index: 0,
                total_obligated: 0,
                total_available: 0,
                buckets: Seq::empty(),
                positions: Seq::empty(),
                snapshots: Seq::empty(),
            }),
    {
        let s = Store {
            config: Config {
                lock_seconds_per_unit,
                day_length_seconds,
                emission_period_seconds,
                allowed_durations,
                freeze: false,
                freeze_start: now,
                freeze_lock_seconds,
                last_distributed_at: now,
                last_snapshot_day: now,
            },
            emission_per_period: 0,
            global_index: 0,
            total_obligated: 0,
            total_available: 0,
            buckets: Vec::new(),
            positions: Vec::new(),
            snapshots: Vec::new(),
        };
        proof {
            assert(s@.buckets =~= Seq::<BucketModel>::empty());
            assert(s@.positions =~= Seq::<PositionModel>::empty());
            assert(s@.snapshots =~= Seq::<SnapshotModel>::empty());
        }
        s
    }

    /// Set the reward emitted per distribution period.
    pub fn set_emission_per_period(&mut self, amount: u64)
        requires
            old(self).wf(),
        ensures
            final(self).wf(),
            final(self)@ == (StoreModel { emission_per_period: amount as int, ..old(self)@ }),
    {
        self.emission_per_period = amount;
    }

    /// Add reward deposits for later distribution.
    pub fn deposit(&mut self, amount: u64) -> (r: Result<(), Error>)
        requires
            old(self).wf(),
        ensures
            final(self).wf(),
            match r {
                Ok(()) => old(self)@.total_available + amount <= u64::MAX && final(self)@
                    == (StoreModel {
                    total_available: old(self)@.total_available + amount,
                    ..old(self)@
                }),
                Err(e) => e == Error::Overflow && old(self)@.total_available + amount > u64::MAX
                    && final(self)@ == old(self)@,
            },
    {
        match self.total_available.checked_add(amount) {
            Some(v) => {
                self.total_available = v;
                Ok(())
            },
            None => Err(Error::Overflow),
        }
    }

    /// Toggle the freeze flag; enabling a freeze starts its window at `now`.
    pub fn set_freeze(&mut self, flag: bool, now: u64)
        requires
            old(self).wf(),
            old(self).fresh(now),
        ensures
            final(self).wf(),
            final(self).fresh(now),
            final(self)@ == (StoreModel {
                config: ConfigModel {
                    freeze: flag,
                    freeze_start: if flag {
                        now as int
                    } else {
                        old(self)@.config.freeze_start
                    },
                    ..old(self)@.config
                },
                ..old(self)@
            }),
    {
        self.config.freeze = flag;
        if flag {
            self.config.freeze_start = now;
        }
    }

    /// Set how long a freeze window lasts.
    pub fn set_freeze_lock_seconds(&mut self, seconds: u64)
        requires
            old(self).wf(),
        ensures
            final(self).wf(),
            final(self)@ == (StoreModel {
                config: ConfigModel { freeze_lock_seconds: seconds as int, ..old(self)@.config },
                ..old(self)@
            }),
    {
        self.config.freeze_lock_seconds = seconds;
    }

    pub open spec fn durations_fit(durations: Seq<int>, lock: int) -> bool {
        forall|i: int| 0 <= i < durations.len() ==> lock * #[trigger] durations[i] <= u64::MAX
    }

    /// Set the lock seconds per duration unit.  Refused when zero or when
    /// some allowed duration's lock window would no longer fit in seconds.
    pub fn set_lock_seconds_per_unit(&mut self, lock: u64) -> (r: Result<(), Error>)
        requires
            old(self).wf(),
        ensures
            final(self).wf(),
            match r {
                Ok(()) => lock > 0 && Self::durations_fit(
                    old(self)@.config.allowed_durations,
                    lock as int,
                ) && final(self)@ == (StoreModel {
                    config: ConfigModel {
                        lock_seconds_per_unit: lock as int,
                        ..old(self)@.config
                    },
                    ..old(self)@
                }),
                Err(e) => final(self)@ == old(self)@ && (if lock == 0 {
                    e == Error::ZeroAmount
                } else {
                    e == Error::Overflow && !Self::durations_fit(
                        old(self)@.config.allowed_durations,
                        lock as int,
                    )
                }),
            },
    {
        if lock == 0 {
            return Err(Error::ZeroAmount);
        }
        let ghost durs = self@.config.allowed_durations;
        let n = self.config.allowed_durations.len();
        let mut i: usize = 0;
        while i < n
            invariant
                self@ == old(self)@,
                self.wf(),
                n == self.config.allowed_durations.len(),
                0 <= i <= n,
                durs == self@.config.allowed_durations,
                durs.len() == n,
                lock > 0,
                forall|k: int| 0 <= k < i ==> (lock as int) * #[trigger] durs[k] <= u64::MAX,
            decreases n - i,
        {
            let d = self.config.allowed_durations[i];
            proof {
                assert(durs[i as int] == d as int);
                assert((lock as int) * (d as int) <= u128::MAX) by (nonlinear_arith)
                    requires
                        lock <= u64::MAX,
                        d <= u64::MAX,
                ;
            }
            if (lock as u128) * (d as u128) > u64::MAX as u128 {
                proof {
                    assert(!Self::durations_fit(durs, lock as int));
                }
                return Err(Error::Overflow);
            }
            i = i + 1;
        }
        self.config.lock_seconds_per_unit = lock;
        Ok(())
    }

    /// Set the distribution period length; a zero period is refused.
    pub fn set_emission_period_seconds(&mut self, seconds: u64) -> (r: Result<(), Error>)
        requires
            old(self).wf(),
        ensures
            final(self).wf(),
            match r {
                Ok(()) => seconds > 0 && final(self)@ == (StoreModel {
                    config: ConfigModel {
                        emission_period_seconds: seconds as int,
                        ..old(self)@.config
                    },
                    ..old(self)@
                }),
                Err(e) => e == Error::ZeroAmount && seconds == 0 && final(self)@ == old(self)@,
            },
    {
        if seconds == 0 {
            return Err(Error::ZeroAmount);
        }
        self.config.emission_period_seconds = seconds;
        Ok(())
    }

    /// Set the snapshot-log day length; a zero length is refused.
    pub fn set_day_length_seconds(&mut self, seconds: u64) -> (r: Result<(), Error>)
        requires
            old(self).wf(),
        ensures
            final(self).wf(),
            match r {
                Ok(()) => seconds > 0 && final(self)@ == (StoreModel {
                    config: ConfigModel {
                        day_length_seconds: seconds as int,
                        ..old(self)@.config
                    },
                    ..old(self)@
                }),
                Err(e) => e == Error::ZeroAmount && seconds == 0 && final(self)@ == old(self)@,
            },
    {
        if seconds == 0 {
            return Err(Error::ZeroAmount);
        }
        self.config.day_length_seconds = seconds;
        Ok(())
    }

    /// Allow a further duration value.  A zero duration, or one whose lock
    /// window would not fit, is refused; an already-allowed duration is
    /// accepted unchanged.
    pub fn add_duration(&mut self, duration: u64) -> (r: Result<(), Error>)
        requires
            old(self).wf(),
        ensures
            final(self).wf(),
            match r {
                Ok(()) => duration > 0 && old(self)@.config.lock_seconds_per_unit * duration
                    <= u64::MAX && final(self)@ == (StoreModel {
                    config: ConfigModel {
                        allowed_durations: if old(self)@.config.allowed_durations.contains(
                            duration as int,
                        ) {
                            old(self)@.config.allowed_durations
                        } else {
                            old(self)@.config.allowed_durations.push(duration as int)
                        },
                        ..old(self)@.config
                    },
                    ..old(self)@
                }),
                Err(e) => final(self)@ == old(self)@ && (if duration == 0 {
                    e == Error::InvalidDuration
                } else {
                    e == Error::Overflow && old(self)@.config.lock_seconds_per_unit * duration
                        > u64::MAX
                }),
            },
    {
        if duration == 0 {
            return Err(Error::InvalidDuration);
        }
        proof {
            let lk = old(self)@.config.lock_seconds_per_unit;
            assert(lk * (duration as int) <= u128::MAX) by (nonlinear_arith)
                requires
                    0 <= lk <= u64::MAX,
                    duration <= u64::MAX,
            ;
        }
        if (self.config.lock_seconds_per_unit as u128) * (duration as u128) > u64::MAX as u128 {
            return Err(Error::Overflow);
        }
        let already = contains_u64(&self.config.allowed_durations, duration);
        if already {
            return Ok(());
        }
        let ghost before = self@.config.allowed_durations;
        self.config.allowed_durations.push(duration);
        proof {
            assert(self@.config.allowed_durations =~= before.push(duration as int));
            crate::invariants::lemma_wf_add_duration(old(self)@, duration as int);
            assert(self@ =~= (StoreModel {
                config: ConfigModel {
                    allowed_durations: before.push(duration as int),
                    ..old(self)@.config
                },
                ..old(self)@
            }));
        }
        Ok(())
    }
}

impl Store {
    /// Index of the position ledger entry for `(participant, duration)`.
    fn find_position_index(&self, participant: u64, duration: u64) -> (r: Option<usize>)
        ensures
            match r {
                Some(i) => i < self.positions.len() && find_pos(
                    self@.positions,
                    participant as int,
                    duration as int,
                ) == i as int,
                None => find_pos(self@.positions, participant as int, duration as int) == -1,
            },
    {
        let ghost s = self@.positions;
        let n = self.positions.len();
        let mut i: usize = 0;
        while i < n
            invariant
                0 <= i <= n,
                n == self.positions.len(),
                s == self@.positions,
                forall|k: int|
                    0 <= k < i ==> !pos_matches(#[trigger] s[k], participant as int, duration as int),
            decreases n - i,
        {
            let e = self.positions[i];
            proof {
                assert(s[i as int] == self.positions@[i as int]@);
            }
            if e.participant == participant && e.duration == duration {
                proof {
                    lemma_find_pos_first(s, participant as int, duration as int, i as int);
                }
                return Some(i);
            }
            i = i + 1;
        }
        proof {
            lemma_find_pos_props(s, participant as int, duration as int);
        }
        None
    }

    /// Index of the duration bucket for `duration`.
    fn find_bucket_index(&self, duration: u64) -> (r: Option<usize>)
        ensures
            match r {
                Some(j) => j < self.buckets.len() && find_bucket(self@.buckets, duration as int)
                    == j as int,
                None => find_bucket(self@.buckets, duration as int) == -1,
            },
    {
        let ghost s = self@.buckets;
        let n = self.buckets.len();
        let mut j: usize = 0;
        while j < n
            invariant
                0 <= j <= n,
                n == self.buckets.len(),
                s == self@.buckets,
                forall|k: int| 0 <= k < j ==> !bucket_matches(#[trigger] s[k], duration as int),
            decreases n - j,
        {
            let b = self.buckets[j];
            proof {
                assert(s[j as int] == self.buckets@[j as int]@);
            }
            if b.duration == duration {
                proof {
                    lemma_find_bucket_first(s, duration as int, j as int);
                }
                return Some(j);
            }
            j = j + 1;
        }
        proof {
            lemma_find_bucket_props(s, duration as int);
        }
        None
    }

    /// Lock window of an allowed duration; fits in seconds by the config
    /// invariant.
    fn lock_of(&self, duration: u64) -> (r: u64)
        requires
            self.wf(),
            self@.config.allowed_durations.contains(duration as int),
        ensures
            r as int == lock_len(self@, duration as int),
            r > 0,
    {
        proof {
            lemma_lock_fits(self@, duration as int);
        }
        self.config.lock_seconds_per_unit * duration
    }

    /// The global reward index.
    pub fn query_global_index(&self) -> (r: u128)
        ensures
            r as int == self@.global_index,
    {
        self.global_index
    }

    /// Total reward promised through the index but not yet paid out.
    pub fn query_total_reward(&self) -> (r: u64)
        ensures
            r as int == self@.total_obligated,
    {
        self.total_obligated
    }

    /// Total reward deposited but not yet paid out.
    pub fn query_total_reward_in_contract(&self) -> (r: u64)
        ensures
            r as int == self@.total_available,
    {
        self.total_available
    }

    /// Reward emitted per distribution period.
    pub fn query_total_daily_reward(&self) -> (r: u64)
        ensures
            r as int == self@.emission_per_period,
    {
        self.emission_per_period
    }

    /// Start of the earliest unprocessed distribution period.
    pub fn query_last_distribution_time(&self) -> (r: u64)
        ensures
            r as int == self@.config.last_distributed_at,
    {
        self.config.last_distributed_at
    }

    /// Length of one distribution period.
    pub fn query_distribution_wait_time(&self) -> (r: u64)
        ensures
            r as int == self@.config.emission_period_seconds,
    {
        self.config.emission_period_seconds
    }

    /// Lock seconds per unit of duration.
    pub fn query_lock_time_frame(&self) -> (r: u64)
        ensures
            r as int == self@.config.lock_seconds_per_unit,
    {
        self.config.lock_seconds_per_unit
    }

    /// How long a freeze window lasts.
    pub fn query_freeze_lock_time(&self) -> (r: u64)
        ensures
            r as int == self@.config.freeze_lock_seconds,
    {
        self.config.freeze_lock_seconds
    }

    /// The engine's configuration, as plain values.
    pub fn query_config(&self) -> (r: crate::msgs::ConfigResponse)
        ensures
            r.lock_seconds_per_unit as int == self@.config.lock_seconds_per_unit,
            r.day_length_seconds as int == self@.config.day_length_seconds,
            r.emission_period_seconds as int == self@.config.emission_period_seconds,
            r.freeze == self@.config.freeze,
            r.freeze_start as int == self@.config.freeze_start,
            r.freeze_lock_seconds as int == self@.config.freeze_lock_seconds,
            r.last_distributed_at as int == self@.config.last_distributed_at,
            r.last_snapshot_day as int == self@.config.last_snapshot_day,
    {
        crate::msgs::ConfigResponse {
            lock_seconds_per_unit: self.config.lock_seconds_per_unit,
            day_length_seconds: self.config.day_length_seconds,
            emission_period_seconds: self.config.emission_period_seconds,
            freeze: self.config.freeze,
            freeze_start: self.config.freeze_start,
            freeze_lock_seconds: self.config.freeze_lock_seconds,
            last_distributed_at: self.config.last_distributed_at,
            last_snapshot_day: self.config.last_snapshot_day,
        }
    }

    /// The duration values a stake may currently choose from.
    pub fn query_duration_values(&self) -> (r: Vec<u64>)
        ensures
            r@ == self.config.allowed_durations@,
    {
        let n = self.config.allowed_durations.len();
        let mut r: Vec<u64> = Vec::new();
        let mut i: usize = 0;
        while i < n
            invariant
                0 <= i <= n,
                n == self.config.allowed_durations.len(),
                r@ =~= self.config.allowed_durations@.subrange(0, i as int),
            decreases n - i,
        {
            r.push(self.config.allowed_durations[i]);
            i = i + 1;
        }
        proof {
            assert(self.config.allowed_durations@.subrange(0, n as int)
                =~= self.config.allowed_durations@);
        }
        r
    }

    /// Total raw stake held in one duration bucket (zero where the bucket
    /// does not exist yet).
    pub fn query_total_staked_by_duration(&self, duration: u64) -> (r: u64)
        ensures
            r as int == bucket_or_new(self@, duration as int).total_raw_staked,
    {
        match self.find_bucket_index(duration) {
            Some(j) => {
                let b = self.buckets[j];
                proof {
                    assert(self@.buckets[j as int] == b@);
                }
                b.total_raw_staked
            },
            None => 0,
        }
    }

    /// A participant's raw staked principal in one duration (zero where no
    /// position exists).
    pub fn query_staked_by_user(&self, participant: u64, duration: u64) -> (r: u64)
        ensures
            ({
                let i = find_pos(self@.positions, participant as int, duration as int);
                r as int == if i >= 0 {
                    self@.positions[i].principal
                } else {
                    0
                }
            }),
    {
        match self.find_position_index(participant, duration) {
            Some(i) => self.positions[i].principal,
            None => 0,
        }
    }

    /// When a participant's position was last minted (zero where no position
    /// exists).
    pub fn query_user_staked_time(&self, participant: u64, duration: u64) -> (r: u64)
        ensures
            ({
                let i = find_pos(self@.positions, participant as int, duration as int);
                r as int == if i >= 0 {
                    self@.positions[i].mint_time
                } else {
                    0
                }
            }),
    {
        match self.find_position_index(participant, duration) {
            Some(i) => self.positions[i].mint_time,
            None => 0,
        }
    }

    /// When a position was staked and last claimed (zeros where no
    /// position exists).
    pub fn query_user_staked_info(&self, participant: u64, duration: u64) -> (r:
        crate::msgs::UserStakedTimeResponse)
        ensures
            ({
                let i = find_pos(self@.positions, participant as int, duration as int);
                if i >= 0 {
                    r.staked_time as int == self@.positions[i].mint_time
                        && r.last_claimed_time as int == self@.positions[i].last_claimed_time
                } else {
                    r.staked_time == 0 && r.last_claimed_time == 0
                }
            }),
    {
        match self.find_position_index(participant, duration) {
            Some(i) => {
                let e = self.positions[i];
                proof {
                    assert(self@.positions[i as int] == e@);
                }
                crate::msgs::UserStakedTimeResponse {
                    staked_time: e.mint_time,
                    last_claimed_time: e.last_claimed_time,
                }
            },
            None => crate::msgs::UserStakedTimeResponse { staked_time: 0, last_claimed_time: 0 },
        }
    }

    /// A participant's decaying balance in one duration at time `now`.
    pub fn query_balance_by_duration(&self, participant: u64, duration: u64, now: u64) -> (r: u64)
        requires
            self.wf(),
            self.fresh(now),
        ensures
            ({
                let i = find_pos(self@.positions, participant as int, duration as int);
                r as int == if i >= 0 {
                    spec_decay(
                        self@.positions[i].principal,
                        self@.positions[i].mint_time,
                        lock_len(self@, duration as int),
                        now as int,
                    )
                } else {
                    0
                }
            }),
    {
        match self.find_position_index(participant, duration) {
            Some(i) => {
                let e = self.positions[i];
                proof {
                    assert(self@.positions[i as int] == e@);
                    lemma_find_pos_props(self@.positions, participant as int, duration as int);
                    assert(self@.positions[i as int].mint_time <= now as int);
                }
                let lock = self.lock_of(e.duration);
                decay(e.principal, e.mint_time, lock, now)
            },
            None => 0,
        }
    }

    /// A duration bucket's aggregate decaying power, evaluated at time `at`
    /// (which may lie in the past, e.g. at a distribution period's start).
    pub fn query_total_balance(&self, duration: u64, at: u64) -> (r: u64)
        requires
            self.wf(),
        ensures
            r as int == bucket_power(
                bucket_or_new(self@, duration as int),
                self@.config.lock_seconds_per_unit,
                at as int,
            ),
            ({
                let j = find_bucket(self@.buckets, duration as int);
                j < 0 ==> r == 0
            }),
    {
        match self.find_bucket_index(duration) {
            Some(j) => {
                let b = self.buckets[j];
                proof {
                    assert(self@.buckets[j as int] == b@);
                    assert(self@.config.allowed_durations.contains(b.duration as int));
                    lemma_lock_fits(self@, b.duration as int);
                }
                let lock = self.config.lock_seconds_per_unit * b.duration;
                let t = if at >= b.decaying_mint_time {
                    at
                } else {
                    b.decaying_mint_time
                };
                decay(b.decaying_total, b.decaying_mint_time, lock, t)
            },
            None => 0,
        }
    }
}

impl Store {
    /// Reconstruct what the position at index `i` is owed: `Some((folded,
    /// total))` where `folded` is the descaled snapshot-log reward and
    /// `total` additionally folds in the pending carry-over; `None` exactly
    /// where the computation would overflow.
    fn owed_of(&self, i: usize) -> (r: Option<(u64, u64)>)
        requires
            self.wf(),
            i < self.positions.len(),
        ensures
            ({
                let pos = self@.positions[i as int];
                match r {
                    Some(v) => owed_fits(self@, pos) && v.0 as int == owed_scaled(self@, pos) / (
                    REWARD_CALC_UNIT as int) && v.1 as int == owed_total(self@, pos),
                    None => !owed_fits(self@, pos),
                }
            }),
    {
        let e = self.positions[i];
        proof {
            assert(self@.positions[i as int] == e@);
            assert(self@.config.allowed_durations.contains(e.duration as int));
        }
        let lock = self.lock_of(e.duration);
        proof {
            assert(self.snapshots@.map_values(|s: SnapshotEntry| s@) =~= self@.snapshots);
            assert(model::log_ordered(self@.snapshots, self@.global_index));
        }
        match reconstruct_scaled(
            &self.snapshots,
            self.global_index,
            e.synced_index,
            e.principal,
            e.mint_time,
            lock,
        ) {
            Some(scaled) => {
                let folded = scaled / REWARD_CALC_UNIT;
                if folded > (u64::MAX as u128) {
                    return None;
                }
                match (folded as u64).checked_add(e.pending_reward) {
                    Some(total) => Some((folded as u64, total)),
                    None => None,
                }
            },
            None => None,
        }
    }

    /// Stake `amount` for `(participant, duration)` at time `now`.
    ///
    /// Folds the position's owed reward into its pending carry-over, merges
    /// the decayed old principal with the deposit, restarts the lock clock,
    /// and applies the same decay-then-merge rule to the duration bucket.
    /// The deposit itself is assumed already settled by the host's token
    /// ledger.  Returns the combined principal and the folded reward.
    pub fn stake(&mut self, participant: u64, duration: u64, amount: u64, now: u64) -> (r: Result<
        StakeOutcome,
        Error,
    >)
        requires
            old(self).wf(),
            old(self).fresh(now),
        ensures
            final(self).wf(),
            final(self).fresh(now),
            ({
                let t = spec_stake(
                    old(self)@,
                    participant as int,
                    duration as int,
                    amount as int,
                    now as int,
                );
                match r {
                    Ok(out) => t matches Ok(post) && final(self)@ == post.0 && out@ == post.1,
                    Err(e) => t matches Err(e2) && e == e2 && final(self)@ == old(self)@,
                }
            }),
    {
        let ghost m0 = self@;
        if !contains_u64(&self.config.allowed_durations, duration) {
            return Err(Error::InvalidDuration);
        }
        if amount == 0 {
            return Err(Error::ZeroAmount);
        }
        let lock = self.lock_of(duration);
        let iopt = self.find_position_index(participant, duration);
        let mut folded: u64 = 0;
        let mut pending1: u64 = 0;
        let mut prev_decayed: u64 = 0;
        let mut old_principal: u64 = 0;
        match iopt {
            Some(i) => {
                let e = self.positions[i];
                proof {
                    assert(m0.positions[i as int] == e@);
                    lemma_find_pos_props(m0.positions, participant as int, duration as int);
                    assert(m0.positions[i as int].mint_time <= now as int);
                }
                match self.owed_of(i) {
                    Some((f, t)) => {
                        folded = f;
                        pending1 = t;
                    },
                    None => {
                        return Err(Error::Overflow);
                    },
                }
                prev_decayed = decay(e.principal, e.mint_time, lock, now);
                old_principal = e.principal;
            },
            None => {},
        }
        let principal1 = match prev_decayed.checked_add(amount) {
            Some(v) => v,
            None => {
                return Err(Error::Overflow);
            },
        };
        let jopt = self.find_bucket_index(duration);
        let mut braw: u64 = 0;
        let mut bagg: u64 = 0;
        let mut bmint: u64 = 0;
        match jopt {
            Some(j) => {
                let b = self.buckets[j];
                proof {
                    assert(m0.buckets[j as int] == b@);
                    assert(m0.buckets[j as int].decaying_mint_time <= now as int);
                }
                braw = b.total_raw_staked;
                bagg = b.decaying_total;
                bmint = b.decaying_mint_time;
            },
            None => {},
        }
        proof {
            let b = bucket_or_new(m0, duration as int);
            assert(b.total_raw_staked == braw as int && b.decaying_total == bagg as int
                && b.decaying_mint_time == bmint as int);
        }
        let raw_less = match braw.checked_sub(old_principal) {
            Some(v) => v,
            None => {
                return Err(Error::AccountingViolation);
            },
        };
        let raw1 = match raw_less.checked_add(principal1) {
            Some(v) => v,
            None => {
                return Err(Error::Overflow);
            },
        };
        let agg_now = decay(bagg, bmint, lock, now);
        let agg1 = match agg_now.checked_add(amount) {
            Some(v) => v,
            None => {
                return Err(Error::Overflow);
            },
        };
        let newpos = PositionEntry {
            participant,
            duration,
            principal: principal1,
            mint_time: now,
            last_claimed_time: now,
            synced_index: self.global_index,
            pending_reward: pending1,
        };
        match iopt {
            Some(i) => {
                self.positions[i] = newpos;
                proof {
                    assert(self@.positions =~= m0.positions.update(i as int, newpos@));
                }
            },
            None => {
                self.positions.push(newpos);
                proof {
                    assert(self@.positions =~= m0.positions.push(newpos@));
                }
            },
        }
        let newbkt = DurationBucket {
            duration,
            total_raw_staked: raw1,
            decaying_total: agg1,
            decaying_mint_time: now,
        };
        match jopt {
            Some(j) => {
                self.buckets[j] = newbkt;
                proof {
                    assert(self@.buckets =~= m0.buckets.update(j as int, newbkt@));
                }
            },
            None => {
                self.buckets.push(newbkt);
                proof {
                    assert(self@.buckets =~= m0.buckets.push(newbkt@));
                }
            },
        }
        proof {
            crate::invariants::lemma_wf_upsert(
                m0,
                newpos@,
                newbkt@,
                m0.total_obligated,
                m0.total_available,
                now as int,
            );
            let t = spec_stake(m0, participant as int, duration as int, amount as int, now as int);
            assert(t matches Ok(post) && self@ =~= post.0);
        }
        Ok(StakeOutcome { new_principal: principal1, folded_reward: folded })
    }

    /// Restake the owed reward of `(participant, duration)` at time `now`:
    /// the reward leaves the accounting totals and is merged into the
    /// position as a fresh deposit; refused when nothing is owed.
    pub fn restake(&mut self, participant: u64, duration: u64, now: u64) -> (r: Result<
        RestakeOutcome,
        Error,
    >)
        requires
            old(self).wf(),
            old(self).fresh(now),
        ensures
            final(self).wf(),
            final(self).fresh(now),
            ({
                let t = spec_restake(old(self)@, participant as int, duration as int, now as int);
                match r {
                    Ok(out) => t matches Ok(post) && final(self)@ == post.0 && out@ == post.1,
                    Err(e) => t matches Err(e2) && e == e2 && final(self)@ == old(self)@,
                }
            }),
    {
        let ghost m0 = self@;
        let i = match self.find_position_index(participant, duration) {
            Some(i) => i,
            None => {
                return Err(Error::NoPosition);
            },
        };
        let e = self.positions[i];
        proof {
            assert(m0.positions[i as int] == e@);
            lemma_find_pos_props(m0.positions, participant as int, duration as int);
            assert(m0.positions[i as int].mint_time <= now as int);
        }
        let reward = match self.owed_of(i) {
            Some((_f, t)) => t,
            None => {
                return Err(Error::Overflow);
            },
        };
        if reward == 0 {
            return Err(Error::NothingToRestake);
        }
        if self.total_obligated < reward || self.total_available < reward {
            return Err(Error::AccountingViolation);
        }
        let lock = self.lock_of(duration);
        let prev_decayed = decay(e.principal, e.mint_time, lock, now);
        let principal1 = match prev_decayed.checked_add(reward) {
            Some(v) => v,
            None => {
                return Err(Error::Overflow);
            },
        };
        let jopt = self.find_bucket_index(duration);
        let mut braw: u64 = 0;
        let mut bagg: u64 = 0;
        let mut bmint: u64 = 0;
        match jopt {
            Some(j) => {
                let b = self.buckets[j];
                proof {
                    assert(m0.buckets[j as int] == b@);
                    assert(m0.buckets[j as int].decaying_mint_time <= now as int);
                }
                braw = b.total_raw_staked;
                bagg = b.decaying_total;
                bmint = b.decaying_mint_time;
            },
            None => {},
        }
        proof {
            let b = bucket_or_new(m0, duration as int);
            assert(b.total_raw_staked == braw as int && b.decaying_total == bagg as int
                && b.decaying_mint_time == bmint as int);
        }
        let raw_less = match braw.checked_sub(e.principal) {
            Some(v) => v,
            None => {
                return Err(Error::AccountingViolation);
            },
        };
        let raw1 = match raw_less.checked_add(principal1) {
            Some(v) => v,
            None => {
                return Err(Error::Overflow);
            },
        };
        let agg_now = decay(bagg, bmint, lock, now);
        let agg1 = match agg_now.checked_add(reward) {
            Some(v) => v,
            None => {
                return Err(Error::Overflow);
            },
        };
        let newpos = PositionEntry {
            participant: e.participant,
            duration: e.duration,
            principal: principal1,
            mint_time: now,
            last_claimed_time: now,
            synced_index: self.global_index,
            pending_reward: 0,
        };
        self.positions[i] = newpos;
        let newbkt = DurationBucket {
            duration,
            total_raw_staked: raw1,
            decaying_total: agg1,
            decaying_mint_time: now,
        };
        match jopt {
            Some(j) => {
                self.buckets[j] = newbkt;
                proof {
                    assert(self@.buckets =~= m0.buckets.update(j as int, newbkt@));
                }
            },
            None => {
                self.buckets.push(newbkt);
                proof {
                    assert(self@.buckets =~= m0.buckets.push(newbkt@));
                }
            },
        }
        self.total_obligated = self.total_obligated - reward;
        self.total_available = self.total_available - reward;
        proof {
            assert(self@.positions =~= m0.positions.update(i as int, newpos@));
            crate::invariants::lemma_wf_upsert(
                m0,
                newpos@,
                newbkt@,
                m0.total_obligated - reward,
                m0.total_available - reward,
                now as int,
            );
            let t = spec_restake(m0, participant as int, duration as int, now as int);
            assert(t matches Ok(post) && self@ =~= post.0);
        }
        Ok(RestakeOutcome { restaked: reward, new_principal: principal1 })
    }

    /// Claim the owed reward of `(participant, duration)` at time `now`.
    /// Before maturity, half the reward is paid and the other half
    /// forfeited to the community address; afterwards the full reward is
    /// paid.  The store keeps no token balances: the caller moves the
    /// returned amounts.
    pub fn claim(&mut self, participant: u64, duration: u64, now: u64) -> (r: Result<
        ClaimOutcome,
        Error,
    >)
        requires
            old(self).wf(),
            old(self).fresh(now),
        ensures
            final(self).wf(),
            final(self).fresh(now),
            ({
                let t = spec_claim(old(self)@, participant as int, duration as int, now as int);
                match r {
                    Ok(out) => t matches Ok(post) && final(self)@ == post.0 && out@ == post.1,
                    Err(e) => t matches Err(e2) && e == e2 && final(self)@ == old(self)@,
                }
            }),
    {
        let ghost m0 = self@;
        if self.config.freeze && (now as u128) < (self.config.freeze_start as u128) + (self.config.freeze_lock_seconds as u128) {
            return Err(Error::Frozen);
        }
        let i = match self.find_position_index(participant, duration) {
            Some(i) => i,
            None => {
                return Err(Error::NoPosition);
            },
        };
        let e = self.positions[i];
        proof {
            assert(m0.positions[i as int] == e@);
            lemma_find_pos_props(m0.positions, participant as int, duration as int);
        }
        let reward = match self.owed_of(i) {
            Some((_f, t)) => t,
            None => {
                return Err(Error::Overflow);
            },
        };
        if self.total_obligated < reward || self.total_available < reward {
            return Err(Error::AccountingViolation);
        }
        let lock = self.lock_of(duration);
        let still_locked = (now as u128) < (e.mint_time as u128) + (lock as u128);
        let paid = if still_locked {
            reward / 2
        } else {
            reward
        };
        let forfeited = reward - paid;
        let newpos = PositionEntry {
            last_claimed_time: now,
            synced_index: self.global_index,
            pending_reward: 0,
            ..e
        };
        self.positions[i] = newpos;
        self.total_obligated = self.total_obligated - reward;
        self.total_available = self.total_available - reward;
        proof {
            assert(self@.positions =~= m0.positions.update(i as int, newpos@));
            crate::invariants::lemma_wf_claim_sync(
                m0,
                i as int,
                m0.total_obligated - reward,
                m0.total_available - reward,
                now as int,
            );
            let t = spec_claim(m0, participant as int, duration as int, now as int);
            assert(t matches Ok(post) && self@ =~= post.0);
        }
        Ok(ClaimOutcome { paid, forfeited })
    }

    /// Unstake `(participant, duration)` at time `now`: only after the lock
    /// has matured.  Returns the un-decayed principal in full plus the full
    /// owed reward; deletes the position and removes its share from the
    /// duration bucket.
    pub fn unstake(&mut self, participant: u64, duration: u64, now: u64) -> (r: Result<
        UnstakeOutcome,
        Error,
    >)
        requires
            old(self).wf(),
            old(self).fresh(now),
        ensures
            final(self).wf(),
            final(self).fresh(now),
            ({
                let t = spec_unstake(old(self)@, participant as int, duration as int, now as int);
                match r {
                    Ok(out) => t matches Ok(post) && final(self)@ == post.0 && out@ == post.1,
                    Err(e) => t matches Err(e2) && e == e2 && final(self)@ == old(self)@,
                }
            }),
    {
        let ghost m0 = self@;
        if self.config.freeze && (now as u128) < (self.config.freeze_start as u128) + (self.config.freeze_lock_seconds as u128) {
            return Err(Error::Frozen);
        }
        let i = match self.find_position_index(participant, duration) {
            Some(i) => i,
            None => {
                return Err(Error::NoPosition);
            },
        };
        let e = self.positions[i];
        proof {
            assert(m0.positions[i as int] == e@);
            lemma_find_pos_props(m0.positions, participant as int, duration as int);
            assert(m0.positions[i as int].mint_time <= now as int);
        }
        let lock = self.lock_of(duration);
        if now - e.mint_time < lock {
            return Err(Error::StillLocked);
        }
        let reward = match self.owed_of(i) {
            Some((_f, t)) => t,
            None => {
                return Err(Error::Overflow);
            },
        };
        if self.total_obligated < reward || self.total_available < reward {
            return Err(Error::AccountingViolation);
        }
        let jopt = self.find_bucket_index(duration);
        let mut braw: u64 = 0;
        let mut bagg: u64 = 0;
        let mut bmint: u64 = 0;
        match jopt {
            Some(j) => {
                let b = self.buckets[j];
                proof {
                    assert(m0.buckets[j as int] == b@);
                    assert(m0.buckets[j as int].decaying_mint_time <= now as int);
                }
                braw = b.total_raw_staked;
                bagg = b.decaying_total;
                bmint = b.decaying_mint_time;
            },
            None => {},
        }
        proof {
            let b = bucket_or_new(m0, duration as int);
            assert(b.total_raw_staked == braw as int && b.decaying_total == bagg as int
                && b.decaying_mint_time == bmint as int);
        }
        let agg_now = decay(bagg, bmint, lock, now);
        let pos_now = decay(e.principal, e.mint_time, lock, now);
        let raw1 = match braw.checked_sub(e.principal) {
            Some(v) => v,
            None => {
                return Err(Error::AccountingViolation);
            },
        };
        let agg1 = match agg_now.checked_sub(pos_now) {
            Some(v) => v,
            None => {
                return Err(Error::AccountingViolation);
            },
        };
        // The position exists, so its bucket does too.
        proof {
            assert(find_bucket(m0.buckets, duration as int) >= 0);
        }
        let j = match jopt {
            Some(j) => j,
            None => {
                proof {
                    assert(false);
                }
                return Err(Error::AccountingViolation);
            },
        };
        let newbkt = DurationBucket {
            duration,
            total_raw_staked: raw1,
            decaying_total: agg1,
            decaying_mint_time: now,
        };
        self.buckets[j] = newbkt;
        self.positions.remove(i);
        self.total_obligated = self.total_obligated - reward;
        self.total_available = self.total_available - reward;
        proof {
            assert(self@.positions =~= m0.positions.remove(i as int));
            assert(self@.buckets =~= m0.buckets.update(j as int, newbkt@));
            crate::invariants::lemma_wf_remove(
                m0,
                i as int,
                newbkt@,
                m0.total_obligated - reward,
                m0.total_available - reward,
                now as int,
            );
            let t = spec_unstake(m0, participant as int, duration as int, now as int);
            assert(t matches Ok(post) && self@ =~= post.0);
        }
        Ok(UnstakeOutcome { principal_returned: e.principal, reward_paid: reward })
    }

    /// The reward currently owed to `(participant, duration)`: the lazily
    /// reconstructed share of past distributions, and the pending carry-over
    /// not yet folded in.  Refused where no position exists or where the
    /// computation would overflow.
    pub fn query_user_reward(&self, participant: u64, duration: u64) -> (r: Result<
        UserRewardResponse,
        Error,
    >)
        requires
            self.wf(),
        ensures
            ({
                let i = find_pos(self@.positions, participant as int, duration as int);
                match r {
                    Ok(resp) => i >= 0 && owed_fits(self@, self@.positions[i]) && resp.user_reward
                        as int == owed_scaled(self@, self@.positions[i]) / (REWARD_CALC_UNIT as int)
                        && resp.pending_reward as int == self@.positions[i].pending_reward,
                    Err(e) => (i < 0 && e == Error::NoPosition) || (i >= 0 && !owed_fits(
                        self@,
                        self@.positions[i],
                    ) && e == Error::Overflow),
                }
            }),
    {
        match self.find_position_index(participant, duration) {
            Some(i) => {
                match self.owed_of(i) {
                    Some((folded, _total)) => {
                        let e = self.positions[i];
                        proof {
                            assert(self@.positions[i as int] == e@);
                        }
                        Ok(
                            UserRewardResponse {
                                user_reward: folded,
                                pending_reward: e.pending_reward,
                            },
                        )
                    },
                    None => Err(Error::Overflow),
                }
            },
            None => Err(Error::NoPosition),
        }
    }

    /// A participant's combined decaying balance over every allowed
    /// duration at time `now`; refused only where the sum would not fit.
    pub fn query_balance(&self, participant: u64, now: u64) -> (r: Result<u64, Error>)
        requires
            self.wf(),
            self.fresh(now),
        ensures
            ({
                let total = user_power_sum(
                    self@,
                    participant as int,
                    self@.config.allowed_durations,
                    now as int,
                );
                match r {
                    Ok(v) => v as int == total,
                    Err(e) => e == Error::Overflow && total > u64::MAX,
                }
            }),
    {
        let ghost durs = self@.config.allowed_durations;
        let ghost total = user_power_sum(self@, participant as int, durs, now as int);
        let n = self.config.allowed_durations.len();
        proof {
            assert(durs.subrange(0, n as int) =~= durs);
        }
        let mut sum: u64 = 0;
        let mut i: usize = 0;
        while i < n
            invariant
                0 <= i <= n,
                self.wf(),
                self.fresh(now),
                n == self.config.allowed_durations.len(),
                durs == self@.config.allowed_durations,
                total == user_power_sum(self@, participant as int, durs, now as int),
                total == sum + user_power_sum(
                    self@,
                    participant as int,
                    durs.subrange(i as int, n as int),
                    now as int,
                ),
            decreases n - i,
        {
            let ghost tail = durs.subrange(i as int, n as int);
            proof {
                assert(tail[0] == durs[i as int]);
                assert(tail.drop_first() =~= durs.subrange(i as int + 1, n as int));
                assert(durs[i as int] == self.config.allowed_durations@[i as int] as int);
                assert(durs.contains(durs[i as int]));
            }
            let d = self.config.allowed_durations[i];
            let here = self.query_balance_by_duration(participant, d, now);
            proof {
                let k = find_pos(self@.positions, participant as int, d as int);
                if k >= 0 {
                    lemma_find_pos_props(self@.positions, participant as int, d as int);
                    lemma_lock_fits(self@, d as int);
                    crate::decay::lemma_decay_le_value(
                        self@.positions[k].principal,
                        self@.positions[k].mint_time,
                        lock_len(self@, d as int),
                        now as int,
                    );
                    assert(self@.positions[k].mint_time <= now as int);
                }
                lemma_user_power_sum_nonneg(
                    self@,
                    participant as int,
                    durs.subrange(i as int + 1, n as int),
                    now as int,
                );
            }
            sum = match sum.checked_add(here) {
                Some(v) => v,
                None => {
                    return Err(Error::Overflow);
                },
            };
            i = i + 1;
        }
        proof {
            assert(durs.subrange(n as int, n as int) =~= Seq::<int>::empty());
        }
        Ok(sum)
    }
}

/// Each duration contributes a non-negative decayed balance.
pub proof fn lemma_user_power_sum_nonneg(m: StoreModel, p: int, durations: Seq<int>, now: int)
    requires
        model::wf(m),
        model::fresh(m, now),
    ensures
        0 <= user_power_sum(m, p, durations, now),
    decreases durations.len(),
{
    if durations.len() != 0 {
        let d = durations[0];
        let i = find_pos(m.positions, p, d);
        if i >= 0 {
            model::lemma_find_pos_props(m.positions, p, d);
            assert(m.positions[i].duration == d);
            lemma_lock_fits(m, d);
            assert(m.positions[i].mint_time <= now);
            crate::decay::lemma_decay_le_value(
                m.positions[i].principal,
                m.positions[i].mint_time,
                lock_len(m, d),
                now,
            );
        }
        lemma_user_power_sum_nonneg(m, p, durations.drop_first(), now);
    }
}

/// A store whose distribution bookkeeping fields have been replaced; the
/// shape every intermediate state of a distribution takes.
pub open spec fn with_dist_fields(
    m: StoreModel,
    g: int,
    obl: int,
    lda: int,
    lsd: int,
    snaps: Seq<SnapshotModel>,
) -> StoreModel {
    StoreModel {
        config: ConfigModel { last_distributed_at: lda, last_snapshot_day: lsd, ..m.config },
        global_index: g,
        total_obligated: obl,
        snapshots: snaps,
        ..m
    }
}

/// An element-wise copy of the snapshot log, for staging a distribution's
/// writes so a late refusal leaves the store untouched.
fn copy_snapshots(v: &Vec<SnapshotEntry>) -> (r: Vec<SnapshotEntry>)
    ensures
        r@ == v@,
{
    let n = v.len();
    let mut r: Vec<SnapshotEntry> = Vec::new();
    let mut i: usize = 0;
    while i < n
        invariant
            0 <= i <= n,
            n == v.len(),
            r@ =~= v@.subrange(0, i as int),
        decreases n - i,
    {
        r.push(v[i]);
        i = i + 1;
    }
    proof {
        assert(v@.subrange(0, n as int) =~= v@);
    }
    r
}

impl Store {
    /// Combined decaying power of all duration buckets at time `at`.
    fn total_power_at(&self, at: u64) -> (p: u128)
        requires
            self.wf(),
        ensures
            p as int == model::total_power(
                self@.buckets,
                self@.config.lock_seconds_per_unit,
                at as int,
            ),
    {
        let ghost bs = self@.buckets;
        let ghost lsu = self@.config.lock_seconds_per_unit;
        let ghost total = model::total_power(bs, lsu, at as int);
        let n = self.buckets.len();
        proof {
            assert(bs.subrange(0, n as int) =~= bs);
        }
        let mut acc: u128 = 0;
        let mut i: usize = 0;
        while i < n
            invariant
                0 <= i <= n,
                self.wf(),
                n == self.buckets.len(),
                bs == self@.buckets,
                lsu == self@.config.lock_seconds_per_unit,
                total == model::total_power(bs, lsu, at as int),
                total == acc + model::total_power(bs.subrange(i as int, n as int), lsu, at as int),
                acc <= (i as int) * (u64::MAX as int),
            decreases n - i,
        {
            let ghost tail = bs.subrange(i as int, n as int);
            proof {
                assert(tail[0] == bs[i as int]);
                assert(tail.drop_first() =~= bs.subrange(i as int + 1, n as int));
                assert(bs[i as int] == self.buckets@[i as int]@);
            }
            let b = self.buckets[i];
            proof {
                assert(self@.config.allowed_durations.contains(b.duration as int));
                lemma_lock_fits(self@, b.duration as int);
            }
            let lock = self.config.lock_seconds_per_unit * b.duration;
            let t = if at >= b.decaying_mint_time {
                at
            } else {
                b.decaying_mint_time
            };
            let here = decay(b.decaying_total, b.decaying_mint_time, lock, t);
            proof {
                assert(here as int == model::bucket_power(bs[i as int], lsu, at as int));
                assert((acc as int) + (here as int) <= ((i as int) + 1) * (u64::MAX as int)
                    && ((i as int) + 1) * (u64::MAX as int) <= u128::MAX) by (nonlinear_arith)
                    requires
                        acc <= (i as int) * (u64::MAX as int),
                        here <= u64::MAX,
                        0 <= i as int,
                        (i as int) + 1 <= 0xffff_ffff_ffff_ffff,
                ;
            }
            acc = acc + (here as u128);
            i = i + 1;
            proof {
                assert(bs.subrange(i as int, n as int) =~= tail.drop_first());
            }
        }
        proof {
            assert(bs.subrange(n as int, n as int) =~= Seq::<BucketModel>::empty());
        }
        acc
    }

    /// Distribute at time `now`: process every fully elapsed emission
    /// period since `last_distributed_at`, oldest first.  Each period with
    /// a non-zero emission must be covered by unobligated deposits; it
    /// advances the global index by `emission * UNIT / totalPower` with the
    /// power evaluated as of the period's start (a powerless period
    /// contributes nothing), and rolls the snapshot log over each crossed
    /// day boundary.  Any refusal leaves the store untouched.
    pub fn distribute(&mut self, now: u64) -> (r: Result<DistributeOutcome, Error>)
        requires
            old(self).wf(),
            old(self).fresh(now),
        ensures
            final(self).wf(),
            final(self).fresh(now),
            ({
                let t = spec_distribute(old(self)@, now as int);
                match r {
                    Ok(out) => t matches Ok(post) && final(self)@ == post.0 && out@ == post.1,
                    Err(e) => t matches Err(e2) && e == e2 && final(self)@ == old(self)@,
                }
            }),
    {
        let ghost m0 = self@;
        let period = self.config.emission_period_seconds;
        let periods = (now - self.config.last_distributed_at) / period;
        if periods == 0 {
            return Err(Error::TooEarly);
        }
        proof {
            vstd::arithmetic::div_mod::lemma_fundamental_div_mod(
                now as int - m0.config.last_distributed_at,
                period as int,
            );
            vstd::arithmetic::div_mod::lemma_mod_bound(
                now as int - m0.config.last_distributed_at,
                period as int,
            );
        }
        let mut g: u128 = self.global_index;
        let mut obl: u64 = self.total_obligated;
        let mut lda: u64 = self.config.last_distributed_at;
        let mut lsd: u64 = self.config.last_snapshot_day;
        let mut snaps: Vec<SnapshotEntry> = copy_snapshots(&self.snapshots);
        let mut k: u64 = 0;
        proof {
            assert(snaps@.map_values(|e: SnapshotEntry| e@) =~= m0.snapshots);
            assert(with_dist_fields(
                m0,
                g as int,
                obl as int,
                lda as int,
                lsd as int,
                snaps@.map_values(|e: SnapshotEntry| e@),
            ) =~= m0);
        }
        while k < periods
            invariant
                0 <= k <= periods,
                m0 == old(self)@,
                self@ == m0,
                self.wf(),
                self.fresh(now),
                model::wf(m0),
                model::fresh(m0, now as int),
                period == m0.config.emission_period_seconds,
                0 < periods,
                periods as int == (now - m0.config.last_distributed_at) / (period as int),
                m0.config.last_distributed_at + (period as int) * (periods as int) <= now,
                lda as int == m0.config.last_distributed_at + (period as int) * (k as int),
                dist_steps(m0, k as nat) == Ok::<StoreModel, Error>(
                    with_dist_fields(
                        m0,
                        g as int,
                        obl as int,
                        lda as int,
                        lsd as int,
                        snaps@.map_values(|e: SnapshotEntry| e@),
                    ),
                ),
                model::wf(
                    with_dist_fields(
                        m0,
                        g as int,
                        obl as int,
                        lda as int,
                        lsd as int,
                        snaps@.map_values(|e: SnapshotEntry| e@),
                    ),
                ),
                model::fresh(
                    with_dist_fields(
                        m0,
                        g as int,
                        obl as int,
                        lda as int,
                        lsd as int,
                        snaps@.map_values(|e: SnapshotEntry| e@),
                    ),
                    now as int,
                ),
            decreases periods - k,
        {
            let ghost cur = with_dist_fields(
                m0,
                g as int,
                obl as int,
                lda as int,
                lsd as int,
                snaps@.map_values(|e: SnapshotEntry| e@),
            );
            proof {
                assert((period as int) * ((k as int) + 1) == (period as int) * (k as int) + (
                period as int) && (period as int) * ((k as int) + 1) <= (period as int) * (
                periods as int)) by (nonlinear_arith)
                    requires
                        k as int + 1 <= periods as int,
                        0 < period as int,
                ;
                assert(lda as int + period as int <= now as int);
                crate::invariants::lemma_wf_dist_step(cur, now as int);
            }
            let start = lda;
            lda = lda + period;
            if self.emission_per_period != 0 {
                if self.total_available - obl < self.emission_per_period {
                    proof {
                        assert(dist_step(cur) == Err::<StoreModel, Error>(
                            Error::InsufficientFunds,
                        ));
                        lemma_dist_steps_split(m0, k as nat, (periods - k) as nat);
                        assert(dist_steps(cur, (periods - k) as nat) == Err::<StoreModel, Error>(
                            Error::InsufficientFunds,
                        ));
                    }
                    return Err(Error::InsufficientFunds);
                }
                let power = self.total_power_at(start);
                let pre = g;
                if power != 0 {
                    proof {
                        let em = self.emission_per_period as int;
                        assert(em * (REWARD_CALC_UNIT as int) <= u128::MAX) by (nonlinear_arith)
                            requires
                                0 <= em <= u64::MAX,
                        ;
                        vstd::arithmetic::div_mod::lemma_div_is_ordered(
                            0,
                            em * (REWARD_CALC_UNIT as int),
                            power as int,
                        );
                    }
                    let inc = (self.emission_per_period as u128) * REWARD_CALC_UNIT / power;
                    g = match g.checked_add(inc) {
                        Some(v) => v,
                        None => {
                            proof {
                                assert(dist_step(cur) == Err::<StoreModel, Error>(Error::Overflow));
                                lemma_dist_steps_split(m0, k as nat, (periods - k) as nat);
                                assert(dist_steps(cur, (periods - k) as nat) == Err::<
                                    StoreModel,
                                    Error,
                                >(Error::Overflow));
                            }
                            return Err(Error::Overflow);
                        },
                    };
                    obl = obl + self.emission_per_period;
                }
                let ghost snaps_before = snaps@.map_values(|e: SnapshotEntry| e@);
                let crosses = (start as u128) + (period as u128) >= (lsd as u128) + (
                self.config.day_length_seconds as u128);
                if crosses {
                    let sl = snaps.len();
                    if sl > 0 && snaps[sl - 1].day == lsd {
                        let old_entry = snaps[sl - 1];
                        snaps[sl - 1] = SnapshotEntry {
                            day: old_entry.day,
                            first_index: old_entry.first_index,
                            last_index: Some(pre),
                        };
                    }
                    proof {
                        assert(snaps@.map_values(|e: SnapshotEntry| e@) =~= spec_close(
                            snaps_before,
                            lsd as int,
                            pre as int,
                        ));
                    }
                    lsd = lsd + self.config.day_length_seconds;
                }
                let ghost snaps_mid = snaps@.map_values(|e: SnapshotEntry| e@);
                let sl = snaps.len();
                let mut have_open = false;
                if sl > 0 {
                    let last_entry = snaps[sl - 1];
                    if last_entry.day == lsd {
                        have_open = true;
                    }
                }
                if !have_open {
                    snaps.push(SnapshotEntry { day: lsd, first_index: g, last_index: None });
                }
                proof {
                    assert(snaps@.map_values(|e: SnapshotEntry| e@) =~= spec_ensure_open(
                        snaps_mid,
                        lsd as int,
                        g as int,
                    ));
                }
            }
            k = k + 1;
            proof {
                let next = with_dist_fields(
                    m0,
                    g as int,
                    obl as int,
                    lda as int,
                    lsd as int,
                    snaps@.map_values(|e: SnapshotEntry| e@),
                );
                assert(dist_step(cur) is Ok);
                assert(dist_step(cur)->Ok_0 =~= next);
                assert(dist_step(cur) == Ok::<StoreModel, Error>(next));
                lemma_dist_steps_split(m0, (k - 1) as nat, 1);
                assert(dist_steps(next, 0) == Ok::<StoreModel, Error>(next));
                assert(dist_steps(cur, 1) == Ok::<StoreModel, Error>(next));
            }
        }
        self.global_index = g;
        self.total_obligated = obl;
        self.config.last_distributed_at = lda;
        self.config.last_snapshot_day = lsd;
        self.snapshots = snaps;
        proof {
            let t = spec_distribute(m0, now as int);
            assert(t matches Ok(post) && self@ =~= post.0);
        }
        Ok(DistributeOutcome { periods })
    }
}

/// Lazy reward reconstruction: one ascending pass over the snapshot-log
/// entries between the first one not yet credited (found by binary search
/// on the monotone closing indices) and the position's maturity day,
/// accumulating each day entry's weighted index delta.  Entries outside
/// that range contribute nothing ([`crate::laws::law_lazy_reconstruction`]),
/// so the walk touches O(day buckets in the lock window) entries, never the
/// whole distribution history.  Returns the scaled reward, or `None` where
/// an intermediate value would exceed 128 bits.
fn reconstruct_scaled(
    snapshots: &Vec<SnapshotEntry>,
    g: u128,
    synced: u128,
    principal: u64,
    mint: u64,
    lock: u64,
) -> (r: Option<u128>)
    requires
        0 < lock,
        model::log_ordered(snapshots@.map_values(|e: SnapshotEntry| e@), g as int),
    ensures
        ({
            let sm = snapshots@.map_values(|e: SnapshotEntry| e@);
            let w = model::walk(
                sm,
                g as int,
                synced as int,
                principal as int,
                mint as int,
                lock as int,
            );
            let fits = model::walk_fits(
                sm,
                g as int,
                synced as int,
                principal as int,
                mint as int,
                lock as int,
            );
            match r {
                Some(v) => fits && w <= u128::MAX && v as int == w,
                None => !(fits && w <= u128::MAX),
            }
        }),
{
    let ghost sm = snapshots@.map_values(|e: SnapshotEntry| e@);
    let ghost w_full = model::walk(
        sm,
        g as int,
        synced as int,
        principal as int,
        mint as int,
        lock as int,
    );
    let ghost fits_full = model::walk_fits(
        sm,
        g as int,
        synced as int,
        principal as int,
        mint as int,
        lock as int,
    );
    let n = snapshots.len();
    proof {
        assert(sm.subrange(0, n as int) =~= sm);
    }
    // Find the first entry whose closing index exceeds what the position
    // has been credited for; everything before it contributes nothing.
    let mut lo: usize = 0;
    let mut hi: usize = n;
    while lo < hi
        invariant
            0 <= lo <= hi <= n,
            n == snapshots.len(),
            sm == snapshots@.map_values(|e: SnapshotEntry| e@),
            model::log_ordered(sm, g as int),
            forall|k: int|
                0 <= k < lo ==> model::eff_last(#[trigger] sm[k], g as int) <= synced as int,
        decreases hi - lo,
    {
        let mid = lo + (hi - lo) / 2;
        let em = snapshots[mid];
        let elm: u128 = match em.last_index {
            Some(l) => l,
            None => g,
        };
        proof {
            assert(sm[mid as int] == snapshots@[mid as int]@);
            assert(elm as int == model::eff_last(sm[mid as int], g as int));
        }
        if elm <= synced {
            proof {
                assert forall|k: int| 0 <= k < mid + 1 implies model::eff_last(
                    #[trigger] sm[k],
                    g as int,
                ) <= synced as int by {
                    if k < mid {
                        assert(model::eff_last(sm[k], g as int) <= sm[mid as int].first_index);
                        assert(sm[mid as int].first_index <= model::eff_last(
                            sm[mid as int],
                            g as int,
                        ));
                    }
                }
            }
            lo = mid + 1;
        } else {
            hi = mid;
        }
    }
    let start_at = lo;
    proof {
        crate::laws::lemma_walk_skip_prefix(
            sm,
            g as int,
            synced as int,
            principal as int,
            mint as int,
            lock as int,
            start_at as int,
        );
    }
    let mut acc: u128 = 0;
    let mut run: u128 = synced;
    let mut i: usize = start_at;
    while i < n
        invariant
            0 <= i <= n,
            n == snapshots.len(),
            sm == snapshots@.map_values(|e: SnapshotEntry| e@),
            model::log_ordered(sm, g as int),
            0 < lock,
            w_full == model::walk(
                sm,
                g as int,
                synced as int,
                principal as int,
                mint as int,
                lock as int,
            ),
            fits_full == model::walk_fits(
                sm,
                g as int,
                synced as int,
                principal as int,
                mint as int,
                lock as int,
            ),
            w_full == acc + model::walk(
                sm.subrange(i as int, n as int),
                g as int,
                run as int,
                principal as int,
                mint as int,
                lock as int,
            ),
            fits_full == model::walk_fits(
                sm.subrange(i as int, n as int),
                g as int,
                run as int,
                principal as int,
                mint as int,
                lock as int,
            ),
        decreases n - i,
    {
        let ghost tail = sm.subrange(i as int, n as int);
        let ghost rest = sm.subrange(i as int + 1, n as int);
        proof {
            assert(tail[0] == sm[i as int]);
            assert(tail.drop_first() =~= rest);
            assert(sm[i as int] == snapshots@[i as int]@);
        }
        let e = snapshots[i];
        let el: u128 = match e.last_index {
            Some(l) => l,
            None => g,
        };
        proof {
            assert(el as int == model::eff_last(sm[i as int], g as int));
        }
        let mintlock: u128 = mint as u128 + lock as u128;
        if (e.day as u128) >= mintlock {
            // Day keys only grow: everything from here on lies at or past
            // maturity and contributes nothing.
            proof {
                assert forall|k: int| 0 <= k < tail.len() implies (#[trigger] tail[k]).day >= mint
                    as int + lock as int by {
                    assert(tail[k] == sm[i as int + k]);
                    if k > 0 {
                        assert(sm[i as int].day < sm[i as int + k].day);
                    }
                }
                crate::laws::lemma_walk_zero_past_maturity(
                    tail,
                    g as int,
                    run as int,
                    principal as int,
                    mint as int,
                    lock as int,
                );
                crate::laws::lemma_fits_past_maturity(
                    tail,
                    g as int,
                    run as int,
                    principal as int,
                    mint as int,
                    lock as int,
                );
                assert(sm.subrange(n as int, n as int) =~= Seq::<SnapshotModel>::empty());
            }
            i = n;
        } else {
            let delta: u128 = if el > run {
                el - run
            } else {
                0
            };
            let ghost day_amount = model::day_contrib(
                sm[i as int],
                g as int,
                run as int,
                principal as int,
                mint as int,
                lock as int,
            );
            if delta > 0 {
                let rem: u128 = mintlock - (e.day as u128);
                let a = match delta.checked_mul(principal as u128) {
                    Some(a) => a,
                    None => {
                        proof {
                            assert((delta as int) * (principal as int) * (rem as int) > u128::MAX)
                                by (nonlinear_arith)
                                requires
                                    (delta as int) * (principal as int) > u128::MAX,
                                    rem >= 1,
                                    principal >= 0,
                                    delta >= 0,
                            ;
                        }
                        return None;
                    },
                };
                let b = match a.checked_mul(rem) {
                    Some(b) => b,
                    None => {
                        return None;
                    },
                };
                let c = b / (lock as u128);
                proof {
                    assert(c as int == day_amount);
                    vstd::arithmetic::div_mod::lemma_div_is_ordered(
                        0,
                        (delta as int) * (principal as int) * (rem as int),
                        lock as int,
                    );
                    model::lemma_walk_nonneg(
                        rest,
                        g as int,
                        model::merge_synced(run as int, el as int),
                        principal as int,
                        mint as int,
                        lock as int,
                    );
                }
                acc = match acc.checked_add(c) {
                    Some(v) => v,
                    None => {
                        return None;
                    },
                };
            } else {
                proof {
                    assert(model::clamp_delta(el as int, run as int) == 0);
                    assert(0 * (principal as int) == 0);
                    assert(0 * (rem_of(mint as int, lock as int, e.day as int)) == 0);
                    vstd::arithmetic::div_mod::lemma_div_of0(lock as int);
                    assert(day_amount == 0);
                }
            }
            run = if el > run {
                el
            } else {
                run
            };
            i = i + 1;
            proof {
                assert(sm.subrange(i as int, n as int) =~= rest);
            }
        }
    }
    proof {
        assert(sm.subrange(n as int, n as int) =~= Seq::<SnapshotModel>::empty());
    }
    Some(acc)
}

/// Remaining lock time at a day key; the reward weight's numerator.
pub open spec fn rem_of(mint: int, lock: int, day: int) -> int {
    mint + lock - day
}

/// The lock window of an allowed duration is positive and fits in a
/// machine word.
pub proof fn lemma_lock_fits(m: StoreModel, d: int)
    requires
        model::wf(m),
        m.config.allowed_durations.contains(d),
    ensures
        0 < d,
        0 < lock_len(m, d) <= u64::MAX,
{
    let durs = m.config.allowed_durations;
    let k = choose|k: int| 0 <= k < durs.len() && durs[k] == d;
    assert(0 < durs[k] && m.config.lock_seconds_per_unit * durs[k] <= u64::MAX);
    assert(0 < lock_len(m, d)) by (nonlinear_arith)
        requires
            0 < m.config.lock_seconds_per_unit,
            0 < d,
            lock_len(m, d) == m.config.lock_seconds_per_unit * d,
    ;
}

/// Whether `v` holds `x`; the spec speaks over the integer view of `v`.
pub fn contains_u64(v: &Vec<u64>, x: u64) -> (r: bool)
    ensures
        r == v@.map_values(|d: u64| d as int).contains(x as int),
{
    let ghost s = v@.map_values(|d: u64| d as int);
    let n = v.len();
    let mut i: usize = 0;
    while i < n
        invariant
            0 <= i <= n,
            n == v.len(),
            s == v@.map_values(|d: u64| d as int),
            forall|k: int| 0 <= k < i ==> #[trigger] s[k] != x as int,
        decreases n - i,
    {
        if v[i] == x {
            proof {
                assert(s[i as int] == x as int);
            }
            return true;
        }
        i = i + 1;
    }
    proof {
        if s.contains(x as int) {
            let k = choose|k: int| 0 <= k < s.len() && s[k] == x as int;
            assert(s[k] != x as int);
        }
    }
    false
}

} // verus!
