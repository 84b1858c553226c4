//! Ghost model of the staking store.
//!
//! Every executable structure in [`crate::store`] has a mathematical view
//! built from these model types; the operations' contracts and the proved
//! laws are stated over them.  Participants are identified by plain numeric
//! ids (the host maps external account names to ids at the boundary).

use vstd::prelude::*;
use crate::decay::spec_decay;

verus! {

/// Fixed-point scale of the global reward index: index deltas carry this
/// many sub-units per reward token.
pub const REWARD_CALC_UNIT: u128 = 1_000_000_000_000;

/// Process-wide parameters and distribution bookkeeping.
#[verifier::ext_equal]
pub ghost struct ConfigModel {
    /// Seconds of lock per unit of duration; a stake of duration `d` locks
    /// for `lock_seconds_per_unit * d` seconds.
    pub lock_seconds_per_unit: int,
    /// Length of one snapshot-log day bucket, in seconds.
    pub day_length_seconds: int,
    /// Minimum seconds between two processed distribution periods.
    pub emission_period_seconds: int,
    /// The duration values a stake may choose from.
    pub allowed_durations: Seq<int>,
    /// Whether claims and unstakes are currently frozen.
    pub freeze: bool,
    /// When the current freeze began.
    pub freeze_start: int,
    /// How long a freeze lasts.
    pub freeze_lock_seconds: int,
    /// Start of the earliest distribution period not yet processed.
    pub last_distributed_at: int,
    /// Day key of the snapshot-log entry currently open for writing.
    pub last_snapshot_day: int,
}

/// One participant's stake in one duration, together with its reward-sync
/// record (`synced_index`, `pending_reward`).
#[verifier::ext_equal]
pub ghost struct PositionModel {
    pub participant: int,
    pub duration: int,
    /// Amount currently staked, pre-decay.
    pub principal: int,
    /// Lock start; reset whenever the position is topped up or restaked.
    pub mint_time: int,
    pub last_claimed_time: int,
    /// Global index value this position has been credited through.
    pub synced_index: int,
    /// Carry-over reward not yet paid out or folded into the principal.
    pub pending_reward: int,
}

/// Per-duration aggregate ledger.
#[verifier::ext_equal]
pub ghost struct BucketModel {
    pub duration: int,
    /// Sum of the principals staked in this bucket.
    pub total_raw_staked: int,
    /// Aggregate decaying power; decays exactly like a position whose lock
    /// started at `decaying_mint_time`.
    pub decaying_total: int,
    pub decaying_mint_time: int,
}

/// One day-keyed entry of the snapshot log: the global index at the start of
/// the day bucket and, once the entry is closed, at its close.
#[verifier::ext_equal]
pub ghost struct SnapshotModel {
    pub day: int,
    pub first_index: int,
    /// `None` while the entry is still open; an open entry's closing index
    /// is read as the current global index.
    pub last_index: Option<int>,
}

/// The whole engine state.
#[verifier::ext_equal]
pub ghost struct StoreModel {
    pub config: ConfigModel,
    /// Admin-set reward emitted per distribution period.
    pub emission_per_period: int,
    /// Monotonic fixed-point reward accumulator, scaled by
    /// [`REWARD_CALC_UNIT`].
    pub global_index: int,
    /// Reward promised through the index but not yet paid out.
    pub total_obligated: int,
    /// Reward tokens deposited but not yet paid out.
    pub total_available: int,
    pub buckets: Seq<BucketModel>,
    pub positions: Seq<PositionModel>,
    pub snapshots: Seq<SnapshotModel>,
}

/// Lock window, in seconds, of a stake with duration `d`.
pub open spec fn lock_len(m: StoreModel, d: int) -> int {
    m.config.lock_seconds_per_unit * d
}

pub open spec fn max_int(a: int, b: int) -> int {
    if a >= b {
        a
    } else {
        b
    }
}

/// Index of the first position with the given key, or `-1`.
pub open spec fn find_pos(s: Seq<PositionModel>, p: int, d: int) -> int
    decreases s.len(),
{
    if s.len() == 0 {
        -1
    } else if s[0].participant == p && s[0].duration == d {
        0
    } else {
        let r = find_pos(s.drop_first(), p, d);
        if r < 0 {
            -1
        } else {
            r + 1
        }
    }
}

/// Index of the first bucket with the given duration, or `-1`.
pub open spec fn find_bucket(s: Seq<BucketModel>, d: int) -> int
    decreases s.len(),
{
    if s.len() == 0 {
        -1
    } else if s[0].duration == d {
        0
    } else {
        let r = find_bucket(s.drop_first(), d);
        if r < 0 {
            -1
        } else {
            r + 1
        }
    }
}

/// The bucket for duration `d`, or a fresh zero bucket where none exists.
pub open spec fn bucket_or_new(m: StoreModel, d: int) -> BucketModel {
    let j = find_bucket(m.buckets, d);
    if j >= 0 {
        m.buckets[j]
    } else {
        BucketModel { duration: d, total_raw_staked: 0, decaying_total: 0, decaying_mint_time: 0 }
    }
}

/// The index value an entry has been closed at, or the current global index
/// while the entry is still open.
pub open spec fn eff_last(e: SnapshotModel, g: int) -> int {
    match e.last_index {
        Option::Some(l) => l,
        Option::None => g,
    }
}

/// How far an entry's closing index reaches beyond what the position has
/// already been credited for (clamped at zero).
pub open spec fn clamp_delta(el: int, synced: int) -> int {
    if el > synced {
        el - synced
    } else {
        0
    }
}

pub open spec fn merge_synced(synced: int, el: int) -> int {
    if el > synced {
        el
    } else {
        synced
    }
}

/// Scaled reward one snapshot entry contributes to a position: the index
/// delta, weighted by the fraction of lock time remaining at the entry's day
/// key.  Entries at or past maturity contribute nothing.
pub open spec fn day_contrib(
    e: SnapshotModel,
    g: int,
    synced: int,
    principal: int,
    mint: int,
    lock: int,
) -> int {
    let delta = clamp_delta(eff_last(e, g), synced);
    if e.day < mint + lock {
        delta * principal * (mint + lock - e.day) / lock
    } else {
        0
    }
}

/// Lazy reward reconstruction over a snapshot log: walks the entries in
/// order, accumulating each day's weighted contribution while advancing the
/// running synced index.  The result is scaled by [`REWARD_CALC_UNIT`].
pub open spec fn walk(
    snaps: Seq<SnapshotModel>,
    g: int,
    synced: int,
    principal: int,
    mint: int,
    lock: int,
) -> int
    decreases snaps.len(),
{
    if snaps.len() == 0 {
        0
    } else {
        day_contrib(snaps[0], g, synced, principal, mint, lock) + walk(
            snaps.drop_first(),
            g,
            merge_synced(synced, eff_last(snaps[0], g)),
            principal,
            mint,
            lock,
        )
    }
}

/// Whether every intermediate product of the reconstruction fits in 128
/// bits, so the executable walk suffers no overflow.
pub open spec fn walk_fits(
    snaps: Seq<SnapshotModel>,
    g: int,
    synced: int,
    principal: int,
    mint: int,
    lock: int,
) -> bool
    decreases snaps.len(),
{
    if snaps.len() == 0 {
        true
    } else {
        let el = eff_last(snaps[0], g);
        let delta = clamp_delta(el, synced);
        (snaps[0].day < mint + lock ==> delta * principal * (mint + lock - snaps[0].day)
            <= u128::MAX) && walk_fits(
            snaps.drop_first(),
            g,
            merge_synced(synced, el),
            principal,
            mint,
            lock,
        )
    }
}

/// Scaled reward owed to a position by the snapshot log, beyond what it has
/// been credited for.
pub open spec fn owed_scaled(m: StoreModel, pos: PositionModel) -> int {
    walk(
        m.snapshots,
        m.global_index,
        pos.synced_index,
        pos.principal,
        pos.mint_time,
        lock_len(m, pos.duration),
    )
}

/// Whether the reconstruction for this position can be computed without
/// machine overflow, including the final descale and pending fold.
pub open spec fn owed_fits(m: StoreModel, pos: PositionModel) -> bool {
    &&& walk_fits(
        m.snapshots,
        m.global_index,
        pos.synced_index,
        pos.principal,
        pos.mint_time,
        lock_len(m, pos.duration),
    )
    &&& owed_scaled(m, pos) <= u128::MAX
    &&& owed_scaled(m, pos) / (REWARD_CALC_UNIT as int) + pos.pending_reward <= u64::MAX
}

/// Total reward owed to a position: the descaled reconstruction plus the
/// carried pending reward.
pub open spec fn owed_total(m: StoreModel, pos: PositionModel) -> int {
    owed_scaled(m, pos) / (REWARD_CALC_UNIT as int) + pos.pending_reward
}

/// A bucket's decaying power evaluated at time `at` (clamped to the
/// aggregate's own lock start, for periods that began before the bucket).
pub open spec fn bucket_power(b: BucketModel, lsu: int, at: int) -> int {
    spec_decay(
        b.decaying_total,
        b.decaying_mint_time,
        lsu * b.duration,
        max_int(at, b.decaying_mint_time),
    )
}

/// Combined decaying power of all buckets at time `at`: the denominator of
/// one distribution period.
pub open spec fn total_power(buckets: Seq<BucketModel>, lsu: int, at: int) -> int
    decreases buckets.len(),
{
    if buckets.len() == 0 {
        0
    } else {
        bucket_power(buckets[0], lsu, at) + total_power(buckets.drop_first(), lsu, at)
    }
}

/// Sum of a participant's decayed balances over a list of durations.
pub open spec fn user_power_sum(m: StoreModel, p: int, durations: Seq<int>, now: int) -> int
    decreases durations.len(),
{
    if durations.len() == 0 {
        0
    } else {
        let d = durations[0];
        let i = find_pos(m.positions, p, d);
        let here = if i >= 0 {
            spec_decay(m.positions[i].principal, m.positions[i].mint_time, lock_len(m, d), now)
        } else {
            0
        };
        here + user_power_sum(m, p, durations.drop_first(), now)
    }
}

pub open spec fn pos_matches(e: PositionModel, p: int, d: int) -> bool {
    e.participant == p && e.duration == d
}

/// What `find_pos` returns: `-1` exactly when no entry matches, else the
/// first matching index.
pub proof fn lemma_find_pos_props(s: Seq<PositionModel>, p: int, d: int)
    ensures
        find_pos(s, p, d) == -1 ==> forall|k: int|
            0 <= k < s.len() ==> !pos_matches(#[trigger] s[k], p, d),
        find_pos(s, p, d) != -1 ==> {
            &&& 0 <= find_pos(s, p, d) < s.len()
            &&& pos_matches(s[find_pos(s, p, d)], p, d)
            &&& forall|k: int| 0 <= k < find_pos(s, p, d) ==> !pos_matches(#[trigger] s[k], p, d)
        },
    decreases s.len(),
{
    if s.len() != 0 && !pos_matches(s[0], p, d) {
        let t = s.drop_first();
        lemma_find_pos_props(t, p, d);
        if find_pos(s, p, d) == -1 {
            assert forall|k: int| 0 <= k < s.len() implies !pos_matches(#[trigger] s[k], p, d) by {
                if k > 0 {
                    assert(t[k - 1] == s[k]);
                }
            }
        } else {
            let r = find_pos(s, p, d);
            assert(t[r - 1] == s[r]);
            assert forall|k: int| 0 <= k < r implies !pos_matches(#[trigger] s[k], p, d) by {
                if k > 0 {
                    assert(t[k - 1] == s[k]);
                }
            }
        }
    }
}

/// The first matching index is what `find_pos` returns.
pub proof fn lemma_find_pos_first(s: Seq<PositionModel>, p: int, d: int, i: int)
    requires
        0 <= i < s.len(),
        pos_matches(s[i], p, d),
        forall|k: int| 0 <= k < i ==> !pos_matches(#[trigger] s[k], p, d),
    ensures
        find_pos(s, p, d) == i,
    decreases s.len(),
{
    if i != 0 {
        let t = s.drop_first();
        assert forall|k: int| 0 <= k < i - 1 implies !pos_matches(#[trigger] t[k], p, d) by {
            assert(t[k] == s[k + 1]);
        }
        assert(t[i - 1] == s[i]);
        lemma_find_pos_first(t, p, d, i - 1);
    }
}

pub open spec fn bucket_matches(b: BucketModel, d: int) -> bool {
    b.duration == d
}

/// What `find_bucket` returns: `-1` exactly when no bucket matches, else
/// the first matching index.
pub proof fn lemma_find_bucket_props(s: Seq<BucketModel>, d: int)
    ensures
        find_bucket(s, d) == -1 ==> forall|k: int|
            0 <= k < s.len() ==> !bucket_matches(#[trigger] s[k], d),
        find_bucket(s, d) != -1 ==> {
            &&& 0 <= find_bucket(s, d) < s.len()
            &&& bucket_matches(s[find_bucket(s, d)], d)
            &&& forall|k: int| 0 <= k < find_bucket(s, d) ==> !bucket_matches(#[trigger] s[k], d)
        },
    decreases s.len(),
{
    if s.len() != 0 && !bucket_matches(s[0], d) {
        let t = s.drop_first();
        lemma_find_bucket_props(t, d);
        if find_bucket(s, d) == -1 {
            assert forall|k: int| 0 <= k < s.len() implies !bucket_matches(#[trigger] s[k], d) by {
                if k > 0 {
                    assert(t[k - 1] == s[k]);
                }
            }
        } else {
            let r = find_bucket(s, d);
            assert(t[r - 1] == s[r]);
            assert forall|k: int| 0 <= k < r implies !bucket_matches(#[trigger] s[k], d) by {
                if k > 0 {
                    assert(t[k - 1] == s[k]);
                }
            }
        }
    }
}

/// The first matching index is what `find_bucket` returns.
pub proof fn lemma_find_bucket_first(s: Seq<BucketModel>, d: int, i: int)
    requires
        0 <= i < s.len(),
        bucket_matches(s[i], d),
        forall|k: int| 0 <= k < i ==> !bucket_matches(#[trigger] s[k], d),
    ensures
        find_bucket(s, d) == i,
    decreases s.len(),
{
    if i != 0 {
        let t = s.drop_first();
        assert forall|k: int| 0 <= k < i - 1 implies !bucket_matches(#[trigger] t[k], d) by {
            assert(t[k] == s[k + 1]);
        }
        assert(t[i - 1] == s[i]);
        lemma_find_bucket_first(t, d, i - 1);
    }
}

/// Every snapshot entry contributes a non-negative amount, so the walk's
/// value is non-negative and partial sums never exceed the total.
pub proof fn lemma_walk_nonneg(
    snaps: Seq<SnapshotModel>,
    g: int,
    synced: int,
    principal: int,
    mint: int,
    lock: int,
)
    requires
        0 <= principal,
        0 < lock,
    ensures
        0 <= walk(snaps, g, synced, principal, mint, lock),
    decreases snaps.len(),
{
    if snaps.len() != 0 {
        let e = snaps[0];
        let delta = clamp_delta(eff_last(e, g), synced);
        if e.day < mint + lock {
            assert(0 <= delta * principal * (mint + lock - e.day)) by (nonlinear_arith)
                requires
                    0 <= delta,
                    0 <= principal,
                    0 < mint + lock - e.day,
            ;
            vstd::arithmetic::div_mod::lemma_div_is_ordered(
                0,
                delta * principal * (mint + lock - e.day),
                lock,
            );
        }
        lemma_walk_nonneg(
            snaps.drop_first(),
            g,
            merge_synced(synced, eff_last(e, g)),
            principal,
            mint,
            lock,
        );
    }
}

/// What one position contributes to the raw total of duration `d`.
pub open spec fn principal_toward(e: PositionModel, d: int) -> int {
    if e.duration == d {
        e.principal
    } else {
        0
    }
}

/// Sum of the principals staked in duration `d`.
pub open spec fn sum_principals(s: Seq<PositionModel>, d: int) -> int
    decreases s.len(),
{
    if s.len() == 0 {
        0
    } else {
        principal_toward(s[0], d) + sum_principals(s.drop_first(), d)
    }
}

/// Every duration bucket's raw total is the sum of the principals staked in
/// it.  Holds of a fresh store and is preserved by every operation
/// ([`crate::laws::law_raw_accounting`]).
pub open spec fn raw_consistent(m: StoreModel) -> bool {
    forall|j: int|
        0 <= j < m.buckets.len() ==> (#[trigger] m.buckets[j]).total_raw_staked == sum_principals(
            m.positions,
            m.buckets[j].duration,
        )
}

pub proof fn lemma_sum_update(s: Seq<PositionModel>, i: int, e: PositionModel, d: int)
    requires
        0 <= i < s.len(),
    ensures
        sum_principals(s.update(i, e), d) == sum_principals(s, d) - principal_toward(s[i], d)
            + principal_toward(e, d),
    decreases s.len(),
{
    let s1 = s.update(i, e);
    if i == 0 {
        assert(s1[0] == e);
        assert(s1.drop_first() =~= s.drop_first());
    } else {
        assert(s1[0] == s[0]);
        assert(s1.drop_first() =~= s.drop_first().update(i - 1, e));
        assert(s.drop_first()[i - 1] == s[i]);
        lemma_sum_update(s.drop_first(), i - 1, e, d);
    }
}

pub proof fn lemma_sum_push(s: Seq<PositionModel>, e: PositionModel, d: int)
    ensures
        sum_principals(s.push(e), d) == sum_principals(s, d) + principal_toward(e, d),
    decreases s.len(),
{
    let s1 = s.push(e);
    if s.len() == 0 {
        assert(s1[0] == e);
        assert(s1.drop_first() =~= Seq::<PositionModel>::empty());
        assert(sum_principals(Seq::<PositionModel>::empty(), d) == 0);
    } else {
        assert(s1[0] == s[0]);
        assert(s1.drop_first() =~= s.drop_first().push(e));
        lemma_sum_push(s.drop_first(), e, d);
    }
}

pub proof fn lemma_sum_remove(s: Seq<PositionModel>, i: int, d: int)
    requires
        0 <= i < s.len(),
    ensures
        sum_principals(s.remove(i), d) == sum_principals(s, d) - principal_toward(s[i], d),
    decreases s.len(),
{
    let s1 = s.remove(i);
    if i == 0 {
        assert(s1 =~= s.drop_first());
    } else {
        assert(s1[0] == s[0]);
        assert(s1.drop_first() =~= s.drop_first().remove(i - 1));
        assert(s.drop_first()[i - 1] == s[i]);
        lemma_sum_remove(s.drop_first(), i - 1, d);
    }
}

/// With no negative principals, a duration's raw sum is non-negative.
pub proof fn lemma_sum_nonneg(s: Seq<PositionModel>, d: int)
    requires
        forall|k: int| 0 <= k < s.len() ==> 0 <= (#[trigger] s[k]).principal,
    ensures
        0 <= sum_principals(s, d),
    decreases s.len(),
{
    if s.len() != 0 {
        assert forall|k: int| 0 <= k < s.drop_first().len() implies 0 <= (
        #[trigger] s.drop_first()[k]).principal by {
            assert(s.drop_first()[k] == s[k + 1]);
        }
        lemma_sum_nonneg(s.drop_first(), d);
    }
}

/// A duration's raw sum covers each single member's contribution.
pub proof fn lemma_sum_at_least_member(s: Seq<PositionModel>, i: int, d: int)
    requires
        0 <= i < s.len(),
        forall|k: int| 0 <= k < s.len() ==> 0 <= (#[trigger] s[k]).principal,
    ensures
        principal_toward(s[i], d) <= sum_principals(s, d),
    decreases s.len(),
{
    assert forall|k: int| 0 <= k < s.drop_first().len() implies 0 <= (
    #[trigger] s.drop_first()[k]).principal by {
        assert(s.drop_first()[k] == s[k + 1]);
    }
    if i == 0 {
        lemma_sum_nonneg(s.drop_first(), d);
    } else {
        assert(s.drop_first()[i - 1] == s[i]);
        lemma_sum_at_least_member(s.drop_first(), i - 1, d);
    }
}

/// A duration nobody staked in sums to zero.
pub proof fn lemma_sum_absent(s: Seq<PositionModel>, d: int)
    requires
        forall|k: int| 0 <= k < s.len() ==> (#[trigger] s[k]).duration != d,
    ensures
        sum_principals(s, d) == 0,
    decreases s.len(),
{
    if s.len() != 0 {
        assert forall|k: int| 0 <= k < s.drop_first().len() implies (#[trigger] s.drop_first()[k]).duration
            != d by {
            assert(s.drop_first()[k] == s[k + 1]);
        }
        lemma_sum_absent(s.drop_first(), d);
    }
}

pub open spec fn wf_config(c: ConfigModel) -> bool {
    &&& 0 < c.lock_seconds_per_unit <= u64::MAX
    &&& 0 < c.day_length_seconds <= u64::MAX
    &&& 0 < c.emission_period_seconds <= u64::MAX
    &&& c.allowed_durations.len() > 0
    &&& forall|i: int|
        0 <= i < c.allowed_durations.len() ==> 0 < #[trigger] c.allowed_durations[i]
            && c.lock_seconds_per_unit * c.allowed_durations[i] <= u64::MAX
    &&& 0 <= c.freeze_start <= u64::MAX
    &&& 0 <= c.freeze_lock_seconds <= u64::MAX
    &&& 0 <= c.last_distributed_at <= u64::MAX
    &&& 0 <= c.last_snapshot_day <= u64::MAX
}

pub open spec fn wf_positions(m: StoreModel) -> bool {
    &&& forall|i: int, j: int|
        0 <= i < j < m.positions.len() ==> !(#[trigger] m.positions[i].participant == #[trigger] m.positions[j].participant
            && m.positions[i].duration == m.positions[j].duration)
    &&& forall|i: int|
        0 <= i < m.positions.len() ==> {
            let pos = #[trigger] m.positions[i];
            &&& 0 <= pos.participant <= u64::MAX
            &&& m.config.allowed_durations.contains(pos.duration)
            &&& 0 < pos.principal <= u64::MAX
            &&& 0 <= pos.mint_time <= u64::MAX
            &&& 0 <= pos.last_claimed_time <= u64::MAX
            &&& 0 <= pos.synced_index <= m.global_index
            &&& 0 <= pos.pending_reward <= u64::MAX
            &&& find_bucket(m.buckets, pos.duration) >= 0
        }
}

pub open spec fn wf_buckets(m: StoreModel) -> bool {
    &&& forall|i: int, j: int|
        0 <= i < j < m.buckets.len() ==> #[trigger] m.buckets[i].duration != #[trigger] m.buckets[j].duration
    &&& forall|i: int|
        0 <= i < m.buckets.len() ==> {
            let b = #[trigger] m.buckets[i];
            &&& m.config.allowed_durations.contains(b.duration)
            &&& 0 <= b.total_raw_staked <= u64::MAX
            &&& 0 <= b.decaying_total <= u64::MAX
            &&& 0 <= b.decaying_mint_time <= u64::MAX
        }
}

/// The ordering facts of a snapshot log that the lazy reconstruction's
/// range restriction rests on: day keys strictly increase and the index
/// values chain monotonically from each entry to the next.
pub open spec fn log_ordered(s: Seq<SnapshotModel>, g: int) -> bool {
    &&& forall|i: int, j: int| 0 <= i < j < s.len() ==> #[trigger] s[i].day < #[trigger] s[j].day
    &&& forall|i: int| 0 <= i < s.len() ==> (#[trigger] s[i]).first_index <= eff_last(s[i], g)
    &&& forall|i: int, j: int|
        0 <= i < j < s.len() ==> eff_last(#[trigger] s[i], g) <= (#[trigger] s[j]).first_index
}

pub open spec fn wf_snapshots(m: StoreModel) -> bool {
    let s = m.snapshots;
    let g = m.global_index;
    &&& forall|i: int, j: int| 0 <= i < j < s.len() ==> #[trigger] s[i].day < #[trigger] s[j].day
    &&& forall|i: int|
        0 <= i < s.len() ==> {
            let e = #[trigger] s[i];
            &&& 0 <= e.day <= m.config.last_snapshot_day
            &&& 0 <= e.first_index
            &&& e.first_index <= eff_last(e, g)
            &&& eff_last(e, g) <= g
        }
    &&& forall|i: int| 0 <= i < s.len() - 1 ==> (#[trigger] s[i].last_index) is Some
    &&& forall|i: int, j: int|
        0 <= i < j < s.len() ==> eff_last(#[trigger] s[i], g) <= (#[trigger] s[j]).first_index
    &&& (s.len() > 0 && s.last().last_index is None ==> s.last().day == m.config.last_snapshot_day)
}

/// Well-formedness of the whole store.  Holds of a freshly created store and
/// is preserved by every operation; includes the conservation invariant
/// `total_obligated <= total_available`.
pub open spec fn wf(m: StoreModel) -> bool {
    &&& wf_config(m.config)
    &&& 0 <= m.emission_per_period <= u64::MAX
    &&& 0 <= m.global_index <= u128::MAX
    &&& 0 <= m.total_obligated <= m.total_available <= u64::MAX
    &&& wf_positions(m)
    &&& wf_buckets(m)
    &&& wf_snapshots(m)
}

/// The host clock is monotonic: an operation invoked at time `now` never
/// sees a timestamp from the future.  Every recorded time was written by an
/// earlier operation, so `now` dominates them all.
pub open spec fn fresh(m: StoreModel, now: int) -> bool {
    &&& now <= u64::MAX
    &&& m.config.last_distributed_at <= now
    &&& m.config.last_snapshot_day <= now
    &&& m.config.freeze_start <= now
    &&& forall|i: int|
        0 <= i < m.positions.len() ==> #[trigger] m.positions[i].mint_time <= now
            && m.positions[i].last_claimed_time <= now
    &&& forall|i: int| 0 <= i < m.buckets.len() ==> #[trigger] m.buckets[i].decaying_mint_time <= now
}

} // verus!
