//! The general properties of the accrual engine, stated and proved over the
//! transition functions: decay monotonicity, the single-staker aggregate
//! agreement and its rounding bound, conservation of deposits over
//! obligations, no double payment, completeness of the lazy range-limited
//! reconstruction, isolation of restakes, and the early-claim penalty.

use vstd::prelude::*;
use crate::decay::{
    lemma_decay_non_increasing, lemma_decay_superadditive, lemma_decay_zero_after_maturity,
    spec_decay,
};
use crate::model::{
    clamp_delta, eff_last, find_bucket, find_pos, fresh, lemma_find_pos_first,
    lemma_find_pos_props, lock_len, merge_synced, owed_fits, owed_scaled, owed_total, pos_matches,
    walk, wf, BucketModel, PositionModel, SnapshotModel, StoreModel, REWARD_CALC_UNIT,
};
use crate::transition::{
    dist_steps, spec_claim, spec_distribute, spec_restake, spec_stake, spec_unstake,
};

verus! {

// ------------------------------------------------------------------
// Decay monotonicity
// ------------------------------------------------------------------
/// For a fixed principal, the decayed value starts at the full principal,
/// is non-increasing in the current time, and is exactly zero from
/// maturity onward.
pub proof fn law_decay_monotone(p: int, t0: int, lock: int, t1: int, t2: int)
    requires
        0 <= p,
        0 < lock,
        t0 <= t1 <= t2,
    ensures
        spec_decay(p, t0, lock, t0) == p,
        spec_decay(p, t0, lock, t2) <= spec_decay(p, t0, lock, t1),
        t2 >= t0 + lock ==> spec_decay(p, t0, lock, t2) == 0,
{
    assert(p * lock == lock * p) by (nonlinear_arith);
    vstd::arithmetic::div_mod::lemma_div_multiples_vanish(p, lock);
    lemma_decay_non_increasing(p, t0, lock, t1, t2);
    if t2 >= t0 + lock {
        lemma_decay_zero_after_maturity(p, t0, lock, t2);
    }
}

// ------------------------------------------------------------------
// Aggregate agreement
// ------------------------------------------------------------------
/// A duration bucket whose aggregate agrees with its single live position
/// still agrees after that participant stakes again: both sides follow the
/// same decay-then-merge rule, so the aggregate, evaluated at any time,
/// equals the (one-position) sum of individually decayed values exactly.
///
/// With several positions whose lock clocks were reset at different times
/// the agreement is only approximate; merging same-clock values loses at
/// most one unit to rounding ([`law_aggregate_merge_rounding`]).
pub proof fn law_single_staker_aggregate(m: StoreModel, p: int, d: int, amount: int, now: int)
    requires
        wf(m),
        fresh(m, now),
        spec_stake(m, p, d, amount, now) is Ok,
        ({
            let i = find_pos(m.positions, p, d);
            let j = find_bucket(m.buckets, d);
            if i >= 0 {
                j >= 0 && m.buckets[j].decaying_total == m.positions[i].principal && m.buckets[
                    j
                ].decaying_mint_time == m.positions[i].mint_time
            } else {
                j < 0 || (m.buckets[j].decaying_total == 0)
            }
        }),
    ensures
        ({
            let m1 = spec_stake(m, p, d, amount, now)->Ok_0.0;
            let i1 = find_pos(m1.positions, p, d);
            let j1 = find_bucket(m1.buckets, d);
            &&& i1 >= 0
            &&& j1 >= 0
            &&& m1.buckets[j1].decaying_total == m1.positions[i1].principal
            &&& m1.buckets[j1].decaying_mint_time == m1.positions[i1].mint_time
        }),
{
    let i = find_pos(m.positions, p, d);
    let j = find_bucket(m.buckets, d);
    lemma_find_pos_props(m.positions, p, d);
    crate::model::lemma_find_bucket_props(m.buckets, d);
    let m1 = spec_stake(m, p, d, amount, now)->Ok_0.0;
    let newpos = if i >= 0 {
        m1.positions[i]
    } else {
        m1.positions.last()
    };
    let i1 = if i >= 0 {
        i
    } else {
        m.positions.len() as int
    };
    let j1 = if j >= 0 {
        j
    } else {
        m.buckets.len() as int
    };
    assert(pos_matches(m1.positions[i1], p, d));
    assert forall|k: int| 0 <= k < i1 implies !pos_matches(#[trigger] m1.positions[k], p, d) by {
        assert(m1.positions[k] == m.positions[k]);
    }
    lemma_find_pos_first(m1.positions, p, d, i1);
    assert(crate::model::bucket_matches(m1.buckets[j1], d));
    assert forall|k: int| 0 <= k < j1 implies !crate::model::bucket_matches(
        #[trigger] m1.buckets[k],
        d,
    ) by {
        assert(m1.buckets[k] == m.buckets[k]);
    }
    crate::model::lemma_find_bucket_first(m1.buckets, d, j1);
}

/// Merging two decaying values that share a lock start loses at most one
/// unit to integer rounding: the decayed whole lies between the sum of the
/// decayed parts and that sum plus one.
pub proof fn law_aggregate_merge_rounding(a: int, b: int, start: int, lock: int, now: int)
    requires
        0 <= a,
        0 <= b,
        0 < lock,
        start <= now,
    ensures
        spec_decay(a, start, lock, now) + spec_decay(b, start, lock, now) <= spec_decay(
            a + b,
            start,
            lock,
            now,
        ) <= spec_decay(a, start, lock, now) + spec_decay(b, start, lock, now) + 1,
{
    lemma_decay_superadditive(a, b, start, lock, now);
}

// ------------------------------------------------------------------
// Conservation
// ------------------------------------------------------------------
/// Distributions over elapsed periods keep the store well-formed — in
/// particular `total_obligated <= total_available` — and never decrease
/// the global index.
pub proof fn lemma_wf_dist_steps(m: StoreModel, k: nat, now: int)
    requires
        wf(m),
        fresh(m, now),
        now <= u64::MAX,
        m.config.last_distributed_at + k * m.config.emission_period_seconds <= now,
    ensures
        match dist_steps(m, k) {
            Ok(m1) => wf(m1) && fresh(m1, now) && m.global_index <= m1.global_index,
            Err(_) => true,
        },
    decreases k,
{
    if k != 0 {
        assert(m.config.last_distributed_at + m.config.emission_period_seconds <= now) by (
        nonlinear_arith)
            requires
                m.config.last_distributed_at + k * m.config.emission_period_seconds <= now,
                k >= 1,
                m.config.emission_period_seconds > 0,
        ;
        crate::invariants::lemma_wf_dist_step(m, now);
        match crate::transition::dist_step(m) {
            Ok(m1) => {
                assert(m1.config.last_distributed_at + (k - 1) * m1.config.emission_period_seconds
                    <= now) by (nonlinear_arith)
                    requires
                        m.config.last_distributed_at + k * m.config.emission_period_seconds <= now,
                        m1.config.last_distributed_at == m.config.last_distributed_at
                            + m.config.emission_period_seconds,
                        m1.config.emission_period_seconds == m.config.emission_period_seconds,
                        k >= 1,
                ;
                lemma_wf_dist_steps(m1, (k - 1) as nat, now);
            },
            Err(_) => {},
        }
    }
}

/// After any successful distribute, claim, restake or unstake, the reward
/// promised through the index never exceeds the reward deposited:
/// `total_obligated <= total_available`.
pub proof fn law_conservation(m: StoreModel, p: int, d: int, now: int)
    requires
        wf(m),
        fresh(m, now),
        now <= u64::MAX,
    ensures
        spec_distribute(m, now) matches Ok(post) ==> post.0.total_obligated
            <= post.0.total_available,
        spec_claim(m, p, d, now) matches Ok(post) ==> post.0.total_obligated
            <= post.0.total_available,
        spec_restake(m, p, d, now) matches Ok(post) ==> post.0.total_obligated
            <= post.0.total_available,
        spec_unstake(m, p, d, now) matches Ok(post) ==> post.0.total_obligated
            <= post.0.total_available,
{
    if spec_distribute(m, now) is Ok {
        let periods = (now - m.config.last_distributed_at) / m.config.emission_period_seconds;
        vstd::arithmetic::div_mod::lemma_fundamental_div_mod(
            now - m.config.last_distributed_at,
            m.config.emission_period_seconds,
        );
        vstd::arithmetic::div_mod::lemma_mod_bound(
            now - m.config.last_distributed_at,
            m.config.emission_period_seconds,
        );
        lemma_wf_dist_steps(m, periods as nat, now);
    }
}

// ------------------------------------------------------------------
// Raw-stake accounting
// ------------------------------------------------------------------
/// Every duration bucket's `total_raw_staked` stays the exact sum of the
/// principals staked in it, through stakes, restakes, claims, unstakes and
/// distributions — the data model's payout-accounting invariant.
pub proof fn law_raw_accounting(m: StoreModel, p: int, d: int, amount: int, now: int)
    requires
        wf(m),
        fresh(m, now),
        now <= u64::MAX,
        crate::model::raw_consistent(m),
    ensures
        spec_stake(m, p, d, amount, now) matches Ok(post) ==> crate::model::raw_consistent(post.0),
        spec_restake(m, p, d, now) matches Ok(post) ==> crate::model::raw_consistent(post.0),
        spec_claim(m, p, d, now) matches Ok(post) ==> crate::model::raw_consistent(post.0),
        spec_unstake(m, p, d, now) matches Ok(post) ==> crate::model::raw_consistent(post.0),
        spec_distribute(m, now) matches Ok(post) ==> crate::model::raw_consistent(post.0),
{
    let i = find_pos(m.positions, p, d);
    let j = find_bucket(m.buckets, d);
    lemma_find_pos_props(m.positions, p, d);
    crate::model::lemma_find_bucket_props(m.buckets, d);
    let jd = if j >= 0 {
        j
    } else {
        m.buckets.len() as int
    };
    if spec_stake(m, p, d, amount, now) is Ok {
        let m1 = spec_stake(m, p, d, amount, now)->Ok_0.0;
        let newpos = if i >= 0 {
            m1.positions[i]
        } else {
            m1.positions.last()
        };
        let newbkt = m1.buckets[jd];
        lemma_raw_upsert(m, m1, p, newpos, newbkt, d);
    }
    if spec_restake(m, p, d, now) is Ok {
        let m1 = spec_restake(m, p, d, now)->Ok_0.0;
        lemma_raw_upsert(m, m1, p, m1.positions[i], m1.buckets[jd], d);
    }
    if spec_claim(m, p, d, now) is Ok {
        let m1 = spec_claim(m, p, d, now)->Ok_0.0;
        assert forall|jj: int| 0 <= jj < m1.buckets.len() implies (#[trigger] m1.buckets[jj]).total_raw_staked
            == crate::model::sum_principals(m1.positions, m1.buckets[jj].duration) by {
            crate::model::lemma_sum_update(m.positions, i, m1.positions[i], m1.buckets[jj].duration);
        }
    }
    if spec_unstake(m, p, d, now) is Ok {
        let m1 = spec_unstake(m, p, d, now)->Ok_0.0;
        assert forall|jj: int| 0 <= jj < m1.buckets.len() implies (#[trigger] m1.buckets[jj]).total_raw_staked
            == crate::model::sum_principals(m1.positions, m1.buckets[jj].duration) by {
            let dur = m1.buckets[jj].duration;
            crate::model::lemma_sum_remove(m.positions, i, dur);
            if jj == j {
                assert(dur == d);
                assert(crate::model::principal_toward(m.positions[i], d) == m.positions[i].principal);
            } else {
                assert(m1.buckets[jj] == m.buckets[jj]);
                assert(dur != d);
                assert(crate::model::principal_toward(m.positions[i], dur) == 0);
            }
        }
    }
    if spec_distribute(m, now) is Ok {
        let periods = (now - m.config.last_distributed_at) / m.config.emission_period_seconds;
        crate::transition::lemma_dist_steps_frame(m, periods as nat);
    }
}

/// Shared step for stake and restake: the written position's bucket gains
/// exactly the principal difference, and no other bucket's sum moves.
proof fn lemma_raw_upsert(
    m: StoreModel,
    m1: StoreModel,
    p: int,
    newpos: PositionModel,
    newbkt: BucketModel,
    d: int,
)
    requires
        wf(m),
        crate::model::raw_consistent(m),
        newpos.participant == p,
        newpos.duration == d,
        newbkt.duration == d,
        m1.positions == (if find_pos(m.positions, p, d) >= 0 {
            m.positions.update(find_pos(m.positions, p, d), newpos)
        } else {
            m.positions.push(newpos)
        }),
        m1.buckets == (if find_bucket(m.buckets, d) >= 0 {
            m.buckets.update(find_bucket(m.buckets, d), newbkt)
        } else {
            m.buckets.push(newbkt)
        }),
        ({
            let i = find_pos(m.positions, p, d);
            let old_p = if i >= 0 {
                m.positions[i].principal
            } else {
                0
            };
            newbkt.total_raw_staked == crate::model::bucket_or_new(m, d).total_raw_staked - old_p
                + newpos.principal
        }),
    ensures
        crate::model::raw_consistent(m1),
{
    let i = find_pos(m.positions, p, d);
    let j = find_bucket(m.buckets, d);
    lemma_find_pos_props(m.positions, p, d);
    crate::model::lemma_find_bucket_props(m.buckets, d);
    let jd = if j >= 0 {
        j
    } else {
        m.buckets.len() as int
    };
    assert forall|jj: int| 0 <= jj < m1.buckets.len() implies (#[trigger] m1.buckets[jj]).total_raw_staked
        == crate::model::sum_principals(m1.positions, m1.buckets[jj].duration) by {
        let dur = m1.buckets[jj].duration;
        if jj == jd {
            assert(m1.buckets[jj] == newbkt);
            if i >= 0 {
                assert(pos_matches(m.positions[i], p, d));
                crate::model::lemma_sum_update(m.positions, i, newpos, d);
                assert(crate::model::principal_toward(m.positions[i], d)
                    == m.positions[i].principal);
                // a live position implies its bucket exists
                assert(j >= 0);
            } else {
                crate::model::lemma_sum_push(m.positions, newpos, d);
                if j < 0 {
                    // no bucket for d means nobody staked in d
                    assert forall|k: int| 0 <= k < m.positions.len() implies (
                    #[trigger] m.positions[k]).duration != d by {
                        if m.positions[k].duration == d {
                            assert(find_bucket(m.buckets, d) >= 0);
                        }
                    }
                    crate::model::lemma_sum_absent(m.positions, d);
                }
            }
        } else {
            assert(m1.buckets[jj] == m.buckets[jj]);
            if j >= 0 {
                assert(crate::model::bucket_matches(m.buckets[j], d));
                assert(dur != d);
            } else {
                assert(!crate::model::bucket_matches(m.buckets[jj], d));
            }
            if i >= 0 {
                crate::model::lemma_sum_update(m.positions, i, newpos, dur);
                assert(crate::model::principal_toward(m.positions[i], dur) == 0);
                assert(crate::model::principal_toward(newpos, dur) == 0);
            } else {
                crate::model::lemma_sum_push(m.positions, newpos, dur);
                assert(crate::model::principal_toward(newpos, dur) == 0);
            }
        }
    }
}

/// Under the raw-accounting invariant, the fatal raw-ledger underflow is
/// unreachable: wherever a position exists, its duration bucket holds at
/// least that position's principal, so removing or replacing it can never
/// drive the bucket's raw total negative.
pub proof fn law_raw_underflow_unreachable(m: StoreModel, p: int, d: int)
    requires
        wf(m),
        crate::model::raw_consistent(m),
    ensures
        ({
            let i = find_pos(m.positions, p, d);
            i >= 0 ==> crate::model::bucket_or_new(m, d).total_raw_staked
                >= m.positions[i].principal
        }),
{
    let i = find_pos(m.positions, p, d);
    if i >= 0 {
        lemma_find_pos_props(m.positions, p, d);
        let j = find_bucket(m.buckets, d);
        crate::model::lemma_find_bucket_props(m.buckets, d);
        assert(j >= 0);
        assert(m.buckets[j].total_raw_staked == crate::model::sum_principals(m.positions, d));
        crate::model::lemma_sum_at_least_member(m.positions, i, d);
        assert(crate::model::principal_toward(m.positions[i], d) == m.positions[i].principal);
    }
}

// ------------------------------------------------------------------
// No double payment
// ------------------------------------------------------------------
/// Once every entry's closing index is already credited, the walk yields
/// nothing.
pub proof fn lemma_walk_zero_when_synced(
    snaps: Seq<SnapshotModel>,
    g: int,
    synced: int,
    principal: int,
    mint: int,
    lock: int,
)
    requires
        0 < lock,
        forall|k: int| 0 <= k < snaps.len() ==> eff_last(#[trigger] snaps[k], g) <= synced,
    ensures
        walk(snaps, g, synced, principal, mint, lock) == 0,
        crate::model::walk_fits(snaps, g, synced, principal, mint, lock),
    decreases snaps.len(),
{
    if snaps.len() != 0 {
        let el = eff_last(snaps[0], g);
        assert(clamp_delta(el, synced) == 0);
        assert(0 * principal == 0);
        assert(0 * (mint + lock - snaps[0].day) == 0);
        vstd::arithmetic::div_mod::lemma_div_of0(lock);
        assert(merge_synced(synced, el) == synced);
        assert forall|k: int| 0 <= k < snaps.drop_first().len() implies eff_last(
            #[trigger] snaps.drop_first()[k],
            g,
        ) <= synced by {
            assert(snaps.drop_first()[k] == snaps[k + 1]);
        }
        lemma_walk_zero_when_synced(snaps.drop_first(), g, synced, principal, mint, lock);
    }
}

/// After a claim fully drains a position's reward, an immediate second
/// claim at the same instant succeeds and pays exactly zero, forfeiting
/// zero.
pub proof fn law_no_repay(m: StoreModel, p: int, d: int, now: int)
    requires
        wf(m),
        fresh(m, now),
        0 <= now <= u64::MAX,
        spec_claim(m, p, d, now) is Ok,
    ensures
        ({
            let m1 = spec_claim(m, p, d, now)->Ok_0.0;
            &&& spec_claim(m1, p, d, now) is Ok
            &&& spec_claim(m1, p, d, now)->Ok_0.1.paid == 0
            &&& spec_claim(m1, p, d, now)->Ok_0.1.forfeited == 0
        }),
{
    let i = find_pos(m.positions, p, d);
    lemma_find_pos_props(m.positions, p, d);
    let r = owed_total(m, m.positions[i]);
    crate::store::lemma_lock_fits(m, d);
    crate::model::lemma_walk_nonneg(
        m.snapshots,
        m.global_index,
        m.positions[i].synced_index,
        m.positions[i].principal,
        m.positions[i].mint_time,
        lock_len(m, d),
    );
    vstd::arithmetic::div_mod::lemma_div_is_ordered(
        0,
        owed_scaled(m, m.positions[i]),
        REWARD_CALC_UNIT as int,
    );
    assert(r >= 0);
    let m1 = spec_claim(m, p, d, now)->Ok_0.0;
    crate::invariants::lemma_wf_claim_sync(
        m,
        i,
        m.total_obligated - r,
        m.total_available - r,
        now,
    );
    let pos1 = m1.positions[i];
    assert(pos_matches(pos1, p, d));
    assert forall|k: int| 0 <= k < i implies !pos_matches(#[trigger] m1.positions[k], p, d) by {
        assert(m1.positions[k] == m.positions[k]);
    }
    lemma_find_pos_first(m1.positions, p, d, i);
    assert(pos1.synced_index == m1.global_index && pos1.pending_reward == 0);
    assert forall|k: int| 0 <= k < m1.snapshots.len() implies eff_last(
        #[trigger] m1.snapshots[k],
        m1.global_index,
    ) <= pos1.synced_index by {
        assert(crate::model::wf_snapshots(m1));
    }
    assert(lock_len(m1, d) == lock_len(m, d));
    lemma_walk_zero_when_synced(
        m1.snapshots,
        m1.global_index,
        pos1.synced_index,
        pos1.principal,
        pos1.mint_time,
        lock_len(m1, d),
    );
    assert(owed_scaled(m1, pos1) == 0);
    assert(owed_total(m1, pos1) == 0) by {
        vstd::arithmetic::div_mod::lemma_div_of0(REWARD_CALC_UNIT as int);
    }
    assert(owed_fits(m1, pos1));
}

// ------------------------------------------------------------------
// Lazy reconstruction is complete
// ------------------------------------------------------------------
/// The running synced index after walking a log segment.
pub open spec fn run_after(snaps: Seq<SnapshotModel>, g: int, synced: int) -> int
    decreases snaps.len(),
{
    if snaps.len() == 0 {
        synced
    } else {
        run_after(snaps.drop_first(), g, merge_synced(synced, eff_last(snaps[0], g)))
    }
}

/// The walk splits over concatenation, threading the running synced index.
pub proof fn lemma_walk_concat(
    x: Seq<SnapshotModel>,
    y: Seq<SnapshotModel>,
    g: int,
    synced: int,
    principal: int,
    mint: int,
    lock: int,
)
    ensures
        walk(x + y, g, synced, principal, mint, lock) == walk(x, g, synced, principal, mint, lock)
            + walk(y, g, run_after(x, g, synced), principal, mint, lock),
    decreases x.len(),
{
    if x.len() == 0 {
        assert(x + y =~= y);
    } else {
        assert((x + y)[0] == x[0]);
        assert((x + y).drop_first() =~= x.drop_first() + y);
        lemma_walk_concat(
            x.drop_first(),
            y,
            g,
            merge_synced(synced, eff_last(x[0], g)),
            principal,
            mint,
            lock,
        );
    }
}

/// Entries at or past the position's maturity contribute nothing, whatever
/// the running synced index.
pub proof fn lemma_walk_zero_past_maturity(
    snaps: Seq<SnapshotModel>,
    g: int,
    synced: int,
    principal: int,
    mint: int,
    lock: int,
)
    requires
        forall|k: int| 0 <= k < snaps.len() ==> (#[trigger] snaps[k]).day >= mint + lock,
    ensures
        walk(snaps, g, synced, principal, mint, lock) == 0,
    decreases snaps.len(),
{
    if snaps.len() != 0 {
        assert forall|k: int| 0 <= k < snaps.drop_first().len() implies (#[trigger] snaps.drop_first()[k]).day
            >= mint + lock by {
            assert(snaps.drop_first()[k] == snaps[k + 1]);
        }
        lemma_walk_zero_past_maturity(
            snaps.drop_first(),
            g,
            merge_synced(synced, eff_last(snaps[0], g)),
            principal,
            mint,
            lock,
        );
    }
}

/// An already-credited entry at the front neither pays nor moves the
/// running synced index.
pub proof fn lemma_walk_skip_credited(
    snaps: Seq<SnapshotModel>,
    g: int,
    synced: int,
    principal: int,
    mint: int,
    lock: int,
)
    requires
        0 < lock,
        snaps.len() > 0,
        eff_last(snaps[0], g) <= synced,
    ensures
        walk(snaps, g, synced, principal, mint, lock) == walk(
            snaps.drop_first(),
            g,
            synced,
            principal,
            mint,
            lock,
        ),
{
    let el = eff_last(snaps[0], g);
    assert(clamp_delta(el, synced) == 0);
    assert(0 * principal == 0);
    assert(0 * (mint + lock - snaps[0].day) == 0);
    vstd::arithmetic::div_mod::lemma_div_of0(lock);
    assert(merge_synced(synced, el) == synced);
}

/// An already-credited entry at the front does not affect whether the walk
/// fits in machine arithmetic.
pub proof fn lemma_fits_skip_credited(
    snaps: Seq<SnapshotModel>,
    g: int,
    synced: int,
    principal: int,
    mint: int,
    lock: int,
)
    requires
        snaps.len() > 0,
        eff_last(snaps[0], g) <= synced,
    ensures
        crate::model::walk_fits(snaps, g, synced, principal, mint, lock)
            == crate::model::walk_fits(
            snaps.drop_first(),
            g,
            synced,
            principal,
            mint,
            lock,
        ),
{
    let el = eff_last(snaps[0], g);
    assert(clamp_delta(el, synced) == 0);
    assert(0 * principal == 0);
    assert(0 * (mint + lock - snaps[0].day) == 0);
    assert(merge_synced(synced, el) == synced);
}

/// Entries at or past maturity place no demand on machine arithmetic.
pub proof fn lemma_fits_past_maturity(
    snaps: Seq<SnapshotModel>,
    g: int,
    synced: int,
    principal: int,
    mint: int,
    lock: int,
)
    requires
        forall|k: int| 0 <= k < snaps.len() ==> (#[trigger] snaps[k]).day >= mint + lock,
    ensures
        crate::model::walk_fits(snaps, g, synced, principal, mint, lock),
    decreases snaps.len(),
{
    if snaps.len() != 0 {
        assert forall|k: int| 0 <= k < snaps.drop_first().len() implies (#[trigger] snaps.drop_first()[k]).day
            >= mint + lock by {
            assert(snaps.drop_first()[k] == snaps[k + 1]);
        }
        lemma_fits_past_maturity(
            snaps.drop_first(),
            g,
            merge_synced(synced, eff_last(snaps[0], g)),
            principal,
            mint,
            lock,
        );
    }
}

/// Dropping a fully credited prefix changes neither the walked reward nor
/// whether the walk fits.
pub proof fn lemma_walk_skip_prefix(
    snaps: Seq<SnapshotModel>,
    g: int,
    synced: int,
    principal: int,
    mint: int,
    lock: int,
    a: int,
)
    requires
        0 < lock,
        0 <= a <= snaps.len(),
        forall|k: int| 0 <= k < a ==> eff_last(#[trigger] snaps[k], g) <= synced,
    ensures
        walk(snaps, g, synced, principal, mint, lock) == walk(
            snaps.subrange(a, snaps.len() as int),
            g,
            synced,
            principal,
            mint,
            lock,
        ),
        crate::model::walk_fits(snaps, g, synced, principal, mint, lock)
            == crate::model::walk_fits(
            snaps.subrange(a, snaps.len() as int),
            g,
            synced,
            principal,
            mint,
            lock,
        ),
    decreases a,
{
    if a == 0 {
        assert(snaps.subrange(0, snaps.len() as int) =~= snaps);
    } else {
        lemma_walk_skip_credited(snaps, g, synced, principal, mint, lock);
        lemma_fits_skip_credited(snaps, g, synced, principal, mint, lock);
        let t = snaps.drop_first();
        assert forall|k: int| 0 <= k < a - 1 implies eff_last(#[trigger] t[k], g) <= synced by {
            assert(t[k] == snaps[k + 1]);
        }
        lemma_walk_skip_prefix(t, g, synced, principal, mint, lock, a - 1);
        assert(t.subrange(a - 1, t.len() as int) =~= snaps.subrange(a, snaps.len() as int));
    }
}

/// Lazy reconstruction is complete: walking only the day range from the
/// first entry not yet credited up to the position's maturity yields the
/// same reward as re-walking the entire distribution history, however long.
/// The skipped prefix must be fully credited and the skipped suffix fully
/// past maturity — which the range bounds of the reward queries guarantee.
pub proof fn law_lazy_reconstruction(
    snaps: Seq<SnapshotModel>,
    g: int,
    synced: int,
    principal: int,
    mint: int,
    lock: int,
    a: int,
    b: int,
)
    requires
        0 < lock,
        0 <= a <= b <= snaps.len(),
        forall|k: int| 0 <= k < a ==> eff_last(#[trigger] snaps[k], g) <= synced,
        forall|k: int| b <= k < snaps.len() ==> (#[trigger] snaps[k]).day >= mint + lock,
    ensures
        walk(snaps, g, synced, principal, mint, lock) == walk(
            snaps.subrange(a, b),
            g,
            synced,
            principal,
            mint,
            lock,
        ),
    decreases a,
{
    if a == 0 {
        let x = snaps.subrange(0, b);
        let y = snaps.subrange(b, snaps.len() as int);
        assert(snaps =~= x + y);
        lemma_walk_concat(x, y, g, synced, principal, mint, lock);
        assert forall|k: int| 0 <= k < y.len() implies (#[trigger] y[k]).day >= mint + lock by {
            assert(y[k] == snaps[b + k]);
        }
        lemma_walk_zero_past_maturity(
            y,
            g,
            run_after(x, g, synced),
            principal,
            mint,
            lock,
        );
    } else {
        lemma_walk_skip_credited(snaps, g, synced, principal, mint, lock);
        let t = snaps.drop_first();
        assert forall|k: int| 0 <= k < a - 1 implies eff_last(#[trigger] t[k], g) <= synced by {
            assert(t[k] == snaps[k + 1]);
        }
        assert forall|k: int| b - 1 <= k < t.len() implies (#[trigger] t[k]).day >= mint
            + lock by {
            assert(t[k] == snaps[k + 1]);
        }
        law_lazy_reconstruction(t, g, synced, principal, mint, lock, a - 1, b - 1);
        assert(t.subrange(a - 1, b - 1) =~= snaps.subrange(a, b));
    }
}

// ------------------------------------------------------------------
// Restakes do not disturb other positions
// ------------------------------------------------------------------
/// A restake by one participant leaves every other position, and the
/// reward owed to it, exactly as it was: the snapshot log and the global
/// index are untouched, so the other position's subsequent reward depends
/// only on future distributions.
pub proof fn law_restake_isolated(m: StoreModel, p: int, d: int, q: int, e: int, now: int)
    requires
        wf(m),
        fresh(m, now),
        spec_restake(m, p, d, now) is Ok,
        !(q == p && e == d),
    ensures
        ({
            let m1 = spec_restake(m, p, d, now)->Ok_0.0;
            let i0 = find_pos(m.positions, q, e);
            let i1 = find_pos(m1.positions, q, e);
            &&& m1.snapshots == m.snapshots
            &&& m1.global_index == m.global_index
            &&& i1 == i0
            &&& i0 >= 0 ==> m1.positions[i1] == m.positions[i0] && owed_scaled(
                m1,
                m1.positions[i1],
            ) == owed_scaled(m, m.positions[i0]) && owed_total(m1, m1.positions[i1]) == owed_total(
                m,
                m.positions[i0],
            )
        }),
{
    let i = find_pos(m.positions, p, d);
    lemma_find_pos_props(m.positions, p, d);
    let m1 = spec_restake(m, p, d, now)->Ok_0.0;
    assert(m1.positions.len() == m.positions.len());
    assert forall|k: int| 0 <= k < m1.positions.len() implies pos_matches(
        #[trigger] m1.positions[k],
        q,
        e,
    ) == pos_matches(m.positions[k], q, e) by {
        if k != i {
            assert(m1.positions[k] == m.positions[k]);
        }
    }
    lemma_find_pos_same(m.positions, m1.positions, q, e);
    let i0 = find_pos(m.positions, q, e);
    if i0 >= 0 {
        lemma_find_pos_props(m.positions, q, e);
        assert(i0 != i);
        assert(m1.positions[i0] == m.positions[i0]);
    }
}

/// Two position ledgers that match the same keys at the same places are
/// searched identically.
pub proof fn lemma_find_pos_same(
    s1: Seq<PositionModel>,
    s2: Seq<PositionModel>,
    p: int,
    d: int,
)
    requires
        s1.len() == s2.len(),
        forall|k: int|
            0 <= k < s1.len() ==> pos_matches(#[trigger] s1[k], p, d) == pos_matches(
                #[trigger] s2[k],
                p,
                d,
            ),
    ensures
        find_pos(s1, p, d) == find_pos(s2, p, d),
    decreases s1.len(),
{
    if s1.len() != 0 && !pos_matches(s1[0], p, d) {
        assert forall|k: int| 0 <= k < s1.drop_first().len() implies pos_matches(
            #[trigger] s1.drop_first()[k],
            p,
            d,
        ) == pos_matches(#[trigger] s2.drop_first()[k], p, d) by {
            assert(s1.drop_first()[k] == s1[k + 1]);
            assert(s2.drop_first()[k] == s2[k + 1]);
        }
        lemma_find_pos_same(s1.drop_first(), s2.drop_first(), p, d);
    }
}

// ------------------------------------------------------------------
// Early-claim penalty
// ------------------------------------------------------------------
/// A claim before maturity pays exactly half the owed reward (rounded
/// down) and forfeits the rest to the community address — for an even
/// reward, exactly half of what the same claim would pay at or after
/// maturity, when the full amount is paid and nothing is forfeited.  In
/// both cases the paid and forfeited parts sum to the full owed reward.
pub proof fn law_early_claim_half(m: StoreModel, p: int, d: int, now: int)
    requires
        wf(m),
        fresh(m, now),
        spec_claim(m, p, d, now) is Ok,
    ensures
        ({
            let pos = m.positions[find_pos(m.positions, p, d)];
            let r = owed_total(m, pos);
            let out = spec_claim(m, p, d, now)->Ok_0.1;
            &&& out.paid + out.forfeited == r
            &&& now < pos.mint_time + lock_len(m, d) ==> out.paid == r / 2
            &&& now >= pos.mint_time + lock_len(m, d) ==> out.paid == r && out.forfeited == 0
        }),
{
    // immediate from the claim transition's definition
}

} // verus!
