//! Preservation of the store's well-formedness by each transition.
//!
//! These proofs back the `wf`/`fresh` clauses in the operations' contracts:
//! uniqueness of ledger keys, sortedness and index-monotonicity of the
//! snapshot log, and the conservation bound
//! `total_obligated <= total_available` survive every operation.

use vstd::prelude::*;
use crate::transition::{dist_step, spec_close, spec_ensure_open};
use crate::model::{
    bucket_matches, find_bucket, find_pos, fresh, lemma_find_bucket_props, lemma_find_pos_props,
    pos_matches, wf, wf_buckets, wf_config, wf_positions, wf_snapshots, BucketModel, ConfigModel,
    PositionModel, StoreModel,
};

verus! {

/// An element already in a sequence stays in it after a push.
pub proof fn lemma_contains_push(s: Seq<int>, x: int, y: int)
    requires
        s.contains(y),
    ensures
        s.push(x).contains(y),
{
    let k = choose|k: int| 0 <= k < s.len() && s[k] == y;
    assert(s.push(x)[k] == y);
}

/// Allowing one more (positive, fitting) duration keeps the store
/// well-formed.
pub proof fn lemma_wf_add_duration(m: StoreModel, d: int)
    requires
        wf(m),
        0 < d,
        m.config.lock_seconds_per_unit * d <= u64::MAX,
        d <= u64::MAX,
    ensures
        wf(
            StoreModel {
                config: ConfigModel {
                    allowed_durations: m.config.allowed_durations.push(d),
                    ..m.config
                },
                ..m
            },
        ),
{
    let c1 = ConfigModel { allowed_durations: m.config.allowed_durations.push(d), ..m.config };
    let m1 = StoreModel { config: c1, ..m };
    let old_durs = m.config.allowed_durations;
    assert forall|i: int| 0 <= i < c1.allowed_durations.len() implies 0
        < #[trigger] c1.allowed_durations[i] && c1.lock_seconds_per_unit * c1.allowed_durations[i]
        <= u64::MAX by {
        if i < old_durs.len() {
            assert(c1.allowed_durations[i] == old_durs[i]);
        } else {
            assert(c1.allowed_durations[i] == d);
        }
    }
    assert(wf_config(c1));
    assert forall|i: int| 0 <= i < m1.positions.len() implies c1.allowed_durations.contains(
        (#[trigger] m1.positions[i]).duration,
    ) by {
        lemma_contains_push(old_durs, d, m1.positions[i].duration);
    }
    assert forall|i: int| 0 <= i < m1.buckets.len() implies c1.allowed_durations.contains(
        (#[trigger] m1.buckets[i]).duration,
    ) by {
        lemma_contains_push(old_durs, d, m1.buckets[i].duration);
    }
    assert(wf_positions(m1));
    assert(wf_buckets(m1));
    assert(wf_snapshots(m1));
}

/// The store after writing a fresh position (updated in place or appended)
/// and its duration bucket, as stake and restake do, is well-formed.
pub proof fn lemma_wf_upsert(
    m: StoreModel,
    newpos: PositionModel,
    newbkt: BucketModel,
    o1: int,
    a1: int,
    now: int,
)
    requires
        wf(m),
        fresh(m, now),
        0 <= now <= u64::MAX,
        0 <= o1 <= a1 <= u64::MAX,
        m.config.allowed_durations.contains(newpos.duration),
        newbkt.duration == newpos.duration,
        0 <= newpos.participant <= u64::MAX,
        0 < newpos.principal <= u64::MAX,
        newpos.mint_time == now,
        newpos.last_claimed_time == now,
        0 <= newpos.synced_index <= m.global_index,
        0 <= newpos.pending_reward <= u64::MAX,
        0 <= newbkt.total_raw_staked <= u64::MAX,
        0 <= newbkt.decaying_total <= u64::MAX,
        newbkt.decaying_mint_time == now,
    ensures
        ({
            let i = find_pos(m.positions, newpos.participant, newpos.duration);
            let j = find_bucket(m.buckets, newpos.duration);
            let m1 = StoreModel {
                positions: if i >= 0 {
                    m.positions.update(i, newpos)
                } else {
                    m.positions.push(newpos)
                },
                buckets: if j >= 0 {
                    m.buckets.update(j, newbkt)
                } else {
                    m.buckets.push(newbkt)
                },
                total_obligated: o1,
                total_available: a1,
                ..m
            };
            wf(m1) && fresh(m1, now)
        }),
{
    let p = newpos.participant;
    let d = newpos.duration;
    let i = find_pos(m.positions, p, d);
    let j = find_bucket(m.buckets, d);
    lemma_find_pos_props(m.positions, p, d);
    lemma_find_bucket_props(m.buckets, d);
    let positions1 = if i >= 0 {
        m.positions.update(i, newpos)
    } else {
        m.positions.push(newpos)
    };
    let buckets1 = if j >= 0 {
        m.buckets.update(j, newbkt)
    } else {
        m.buckets.push(newbkt)
    };
    let m1 = StoreModel {
        positions: positions1,
        buckets: buckets1,
        total_obligated: o1,
        total_available: a1,
        ..m
    };
    // Each key occurs once: the written entry reuses the key it replaces,
    // or a key that was absent.
    assert forall|a: int, b: int| 0 <= a < b < positions1.len() implies !(
    (#[trigger] positions1[a]).participant == (#[trigger] positions1[b]).participant
        && positions1[a].duration == positions1[b].duration) by {
        if i >= 0 {
            assert(pos_matches(m.positions[i], p, d));
            if a != i && b != i {
                assert(positions1[a] == m.positions[a] && positions1[b] == m.positions[b]);
            } else if a == i {
                assert(positions1[b] == m.positions[b]);
                assert(!pos_matches(m.positions[b], p, d));
            } else {
                assert(positions1[a] == m.positions[a]);
                assert(!pos_matches(m.positions[a], p, d));
            }
        } else {
            if b < m.positions.len() {
                assert(positions1[a] == m.positions[a] && positions1[b] == m.positions[b]);
            } else {
                assert(positions1[a] == m.positions[a] && positions1[b] == newpos);
                assert(!pos_matches(m.positions[a], p, d));
            }
        }
    }
    assert forall|a: int, b: int| 0 <= a < b < buckets1.len() implies (#[trigger] buckets1[a]).duration
        != (#[trigger] buckets1[b]).duration by {
        if j >= 0 {
            assert(bucket_matches(m.buckets[j], d));
            if a != j && b != j {
                assert(buckets1[a] == m.buckets[a] && buckets1[b] == m.buckets[b]);
            } else if a == j {
                assert(buckets1[b] == m.buckets[b]);
                assert(!bucket_matches(m.buckets[b], d));
            } else {
                assert(buckets1[a] == m.buckets[a]);
                assert(!bucket_matches(m.buckets[a], d));
            }
        } else {
            if b < m.buckets.len() {
                assert(buckets1[a] == m.buckets[a] && buckets1[b] == m.buckets[b]);
            } else {
                assert(buckets1[a] == m.buckets[a] && buckets1[b] == newbkt);
                assert(!bucket_matches(m.buckets[a], d));
            }
        }
    }
    // The written bucket keeps every duration findable.
    let jn = if j >= 0 {
        j
    } else {
        m.buckets.len() as int
    };
    assert(buckets1[jn].duration == d);
    assert forall|k: int| 0 <= k < positions1.len() implies {
        let pos = #[trigger] positions1[k];
        &&& 0 <= pos.participant <= u64::MAX
        &&& m1.config.allowed_durations.contains(pos.duration)
        &&& 0 < pos.principal <= u64::MAX
        &&& 0 <= pos.mint_time <= u64::MAX
        &&& 0 <= pos.last_claimed_time <= u64::MAX
        &&& 0 <= pos.synced_index <= m1.global_index
        &&& 0 <= pos.pending_reward <= u64::MAX
        &&& find_bucket(m1.buckets, pos.duration) >= 0
    } by {
        let pos = positions1[k];
        if (i >= 0 && k == i) || (i < 0 && k == m.positions.len()) {
            assert(pos == newpos);
            lemma_find_bucket_props(buckets1, d);
            if find_bucket(buckets1, d) == -1 {
                assert(!bucket_matches(buckets1[jn], d));
            }
        } else {
            assert(pos == m.positions[k]);
            let k0 = find_bucket(m.buckets, pos.duration);
            lemma_find_bucket_props(m.buckets, pos.duration);
            assert(bucket_matches(m.buckets[k0], pos.duration));
            let kw = if k0 == j {
                jn
            } else {
                k0
            };
            assert(bucket_matches(buckets1[kw], pos.duration));
            lemma_find_bucket_props(buckets1, pos.duration);
            if find_bucket(buckets1, pos.duration) == -1 {
                assert(!bucket_matches(buckets1[kw], pos.duration));
            }
        }
    }
    assert(wf_positions(m1));
    assert forall|k: int| 0 <= k < buckets1.len() implies {
        let bk = #[trigger] buckets1[k];
        &&& m1.config.allowed_durations.contains(bk.duration)
        &&& 0 <= bk.total_raw_staked <= u64::MAX
        &&& 0 <= bk.decaying_total <= u64::MAX
        &&& 0 <= bk.decaying_mint_time <= u64::MAX
    } by {
        if (j >= 0 && k == j) || (j < 0 && k == m.buckets.len()) {
            assert(buckets1[k] == newbkt);
        } else {
            assert(buckets1[k] == m.buckets[k]);
        }
    }
    assert(wf_buckets(m1));
    assert(wf_snapshots(m1));
    assert forall|k: int| 0 <= k < positions1.len() implies #[trigger] positions1[k].mint_time
        <= now && positions1[k].last_claimed_time <= now by {
        if !((i >= 0 && k == i) || (i < 0 && k == m.positions.len())) {
            assert(positions1[k] == m.positions[k]);
        }
    }
    assert forall|k: int| 0 <= k < buckets1.len() implies #[trigger] buckets1[k].decaying_mint_time
        <= now by {
        if !((j >= 0 && k == j) || (j < 0 && k == m.buckets.len())) {
            assert(buckets1[k] == m.buckets[k]);
        }
    }
}

/// The store after a claim's sync rewrite (pending zeroed, synced index
/// brought to the current global index, claim time recorded) is
/// well-formed.
pub proof fn lemma_wf_claim_sync(m: StoreModel, i: int, o1: int, a1: int, now: int)
    requires
        wf(m),
        fresh(m, now),
        0 <= now <= u64::MAX,
        0 <= o1 <= a1 <= u64::MAX,
        0 <= i < m.positions.len(),
    ensures
        ({
            let newpos = PositionModel {
                last_claimed_time: now,
                synced_index: m.global_index,
                pending_reward: 0,
                ..m.positions[i]
            };
            let m1 = StoreModel {
                positions: m.positions.update(i, newpos),
                total_obligated: o1,
                total_available: a1,
                ..m
            };
            wf(m1) && fresh(m1, now)
        }),
{
    let newpos = PositionModel {
        last_claimed_time: now,
        synced_index: m.global_index,
        pending_reward: 0,
        ..m.positions[i]
    };
    let positions1 = m.positions.update(i, newpos);
    let m1 = StoreModel {
        positions: positions1,
        total_obligated: o1,
        total_available: a1,
        ..m
    };
    assert forall|a: int, b: int| 0 <= a < b < positions1.len() implies !(
    (#[trigger] positions1[a]).participant == (#[trigger] positions1[b]).participant
        && positions1[a].duration == positions1[b].duration) by {
        assert(positions1[a].participant == m.positions[a].participant && positions1[a].duration
            == m.positions[a].duration);
        assert(positions1[b].participant == m.positions[b].participant && positions1[b].duration
            == m.positions[b].duration);
    }
    assert forall|k: int| 0 <= k < positions1.len() implies {
        let pos = #[trigger] positions1[k];
        &&& 0 <= pos.participant <= u64::MAX
        &&& m1.config.allowed_durations.contains(pos.duration)
        &&& 0 < pos.principal <= u64::MAX
        &&& 0 <= pos.mint_time <= u64::MAX
        &&& 0 <= pos.last_claimed_time <= u64::MAX
        &&& 0 <= pos.synced_index <= m1.global_index
        &&& 0 <= pos.pending_reward <= u64::MAX
        &&& find_bucket(m1.buckets, pos.duration) >= 0
    } by {
        if k != i {
            assert(positions1[k] == m.positions[k]);
        } else {
            assert(m1.config.allowed_durations.contains(m.positions[i].duration));
            assert(find_bucket(m1.buckets, m.positions[i].duration) >= 0);
        }
    }
    assert(wf_positions(m1));
    assert(wf_buckets(m1));
    assert(wf_snapshots(m1));
    assert forall|k: int| 0 <= k < positions1.len() implies #[trigger] positions1[k].mint_time
        <= now && positions1[k].last_claimed_time <= now by {
        if k != i {
            assert(positions1[k] == m.positions[k]);
        }
    }
}

/// The store after an unstake (position removed, its bucket rebased) is
/// well-formed.
pub proof fn lemma_wf_remove(m: StoreModel, i: int, newbkt: BucketModel, o1: int, a1: int, now: int)
    requires
        wf(m),
        fresh(m, now),
        0 <= now <= u64::MAX,
        0 <= o1 <= a1 <= u64::MAX,
        0 <= i < m.positions.len(),
        newbkt.duration == m.positions[i].duration,
        0 <= newbkt.total_raw_staked <= u64::MAX,
        0 <= newbkt.decaying_total <= u64::MAX,
        newbkt.decaying_mint_time == now,
    ensures
        ({
            let j = find_bucket(m.buckets, m.positions[i].duration);
            let m1 = StoreModel {
                positions: m.positions.remove(i),
                buckets: m.buckets.update(j, newbkt),
                total_obligated: o1,
                total_available: a1,
                ..m
            };
            wf(m1) && fresh(m1, now)
        }),
{
    let d = m.positions[i].duration;
    let j = find_bucket(m.buckets, d);
    lemma_find_bucket_props(m.buckets, d);
    let positions1 = m.positions.remove(i);
    let buckets1 = m.buckets.update(j, newbkt);
    let m1 = StoreModel {
        positions: positions1,
        buckets: buckets1,
        total_obligated: o1,
        total_available: a1,
        ..m
    };
    let back = |k: int| if k < i { k } else { k + 1 };
    assert forall|k: int| 0 <= k < positions1.len() implies #[trigger] positions1[k]
        == m.positions[back(k)] by {
        assert(positions1 == m.positions.subrange(0, i) + m.positions.subrange(
            i + 1,
            m.positions.len() as int,
        ));
    }
    assert forall|a: int, b: int| 0 <= a < b < positions1.len() implies !(
    (#[trigger] positions1[a]).participant == (#[trigger] positions1[b]).participant
        && positions1[a].duration == positions1[b].duration) by {
        assert(positions1[a] == m.positions[back(a)]);
        assert(positions1[b] == m.positions[back(b)]);
    }
    assert forall|k: int| 0 <= k < buckets1.len() implies {
        let bk = #[trigger] buckets1[k];
        &&& m1.config.allowed_durations.contains(bk.duration)
        &&& 0 <= bk.total_raw_staked <= u64::MAX
        &&& 0 <= bk.decaying_total <= u64::MAX
        &&& 0 <= bk.decaying_mint_time <= u64::MAX
    } by {
        if k != j {
            assert(buckets1[k] == m.buckets[k]);
        } else {
            assert(m1.config.allowed_durations.contains(d));
        }
    }
    assert forall|a: int, b: int| 0 <= a < b < buckets1.len() implies (#[trigger] buckets1[a]).duration
        != (#[trigger] buckets1[b]).duration by {
        assert(buckets1[a].duration == m.buckets[a].duration);
        assert(buckets1[b].duration == m.buckets[b].duration);
    }
    assert forall|k: int| 0 <= k < positions1.len() implies {
        let pos = #[trigger] positions1[k];
        &&& 0 <= pos.participant <= u64::MAX
        &&& m1.config.allowed_durations.contains(pos.duration)
        &&& 0 < pos.principal <= u64::MAX
        &&& 0 <= pos.mint_time <= u64::MAX
        &&& 0 <= pos.last_claimed_time <= u64::MAX
        &&& 0 <= pos.synced_index <= m1.global_index
        &&& 0 <= pos.pending_reward <= u64::MAX
        &&& find_bucket(m1.buckets, pos.duration) >= 0
    } by {
        assert(positions1[k] == m.positions[back(k)]);
        let pos = m.positions[back(k)];
        let k0 = find_bucket(m.buckets, pos.duration);
        lemma_find_bucket_props(m.buckets, pos.duration);
        assert(bucket_matches(m.buckets[k0], pos.duration));
        assert(bucket_matches(buckets1[k0], pos.duration));
        lemma_find_bucket_props(buckets1, pos.duration);
        if find_bucket(buckets1, pos.duration) == -1 {
            assert(!bucket_matches(buckets1[k0], pos.duration));
        }
    }
    assert(wf_positions(m1));
    assert(wf_buckets(m1));
    assert(wf_snapshots(m1));
    assert forall|k: int| 0 <= k < positions1.len() implies #[trigger] positions1[k].mint_time
        <= now && positions1[k].last_claimed_time <= now by {
        assert(positions1[k] == m.positions[back(k)]);
    }
    assert forall|k: int| 0 <= k < buckets1.len() implies #[trigger] buckets1[k].decaying_mint_time
        <= now by {
        if k != j {
            assert(buckets1[k] == m.buckets[k]);
        }
    }
}

/// One distribution step keeps the store well-formed: the index only grows,
/// new obligations stay covered by deposits, and the snapshot log stays
/// sorted, monotone and closed everywhere but at the open day.
pub proof fn lemma_wf_dist_step(m: StoreModel, now: int)
    requires
        wf(m),
        fresh(m, now),
        now <= u64::MAX,
        m.config.last_distributed_at + m.config.emission_period_seconds <= now,
    ensures
        match dist_step(m) {
            Ok(m1) => wf(m1) && fresh(m1, now) && m.global_index <= m1.global_index,
            Err(_) => true,
        },
{
    let start = m.config.last_distributed_at;
    let period = m.config.emission_period_seconds;
    if m.emission_per_period == 0 {
        return ;
    }
    if m.total_available - m.total_obligated < m.emission_per_period {
        return ;
    }
    let power = crate::model::total_power(m.buckets, m.config.lock_seconds_per_unit, start);
    let pre = m.global_index;
    let g1 = if power > 0 {
        pre + m.emission_per_period * (crate::model::REWARD_CALC_UNIT as int) / power
    } else {
        pre
    };
    if power > 0 {
        assert(0 <= m.emission_per_period * (crate::model::REWARD_CALC_UNIT as int))
            by (nonlinear_arith)
            requires
                0 <= m.emission_per_period,
        ;
        vstd::arithmetic::div_mod::lemma_div_is_ordered(
            0,
            m.emission_per_period * (crate::model::REWARD_CALC_UNIT as int),
            power,
        );
    }
    assert(pre <= g1);
    if g1 > u128::MAX {
        return ;
    }
    let crosses = start + period >= m.config.last_snapshot_day + m.config.day_length_seconds;
    let day1 = if crosses {
        m.config.last_snapshot_day + m.config.day_length_seconds
    } else {
        m.config.last_snapshot_day
    };
    let snaps1 = if crosses {
        spec_close(m.snapshots, m.config.last_snapshot_day, pre)
    } else {
        m.snapshots
    };
    let snaps2 = spec_ensure_open(snaps1, day1, g1);
    let m1 = dist_step(m)->Ok_0;
    assert(m1.snapshots == snaps2 && m1.global_index == g1 && m1.config.last_snapshot_day == day1);
    assert(day1 <= now);
    // Closing rewrites only the final entry; its first index stays below
    // the closing value, which the new index dominates.
    assert forall|k: int| 0 <= k < snaps1.len() implies {
        let e = #[trigger] snaps1[k];
        &&& 0 <= e.day <= day1
        &&& 0 <= e.first_index
        &&& e.first_index <= crate::model::eff_last(e, g1)
        &&& crate::model::eff_last(e, g1) <= g1
        &&& (k < snaps1.len() - 1 ==> e.last_index is Some)
    } by {
        if !crosses || !(m.snapshots.len() > 0 && m.snapshots.last().day
            == m.config.last_snapshot_day && k == m.snapshots.len() - 1) {
            assert(snaps1[k] == m.snapshots[k]);
        }
    }
    assert forall|a: int, b: int| 0 <= a < b < snaps1.len() implies #[trigger] snaps1[a].day
        < #[trigger] snaps1[b].day by {
        assert(snaps1[a].day == m.snapshots[a].day && snaps1[b].day == m.snapshots[b].day);
    }
    assert forall|a: int, b: int| 0 <= a < b < snaps1.len() implies crate::model::eff_last(
        #[trigger] snaps1[a],
        g1,
    ) <= (#[trigger] snaps1[b]).first_index by {
        assert(snaps1[b].first_index == m.snapshots[b].first_index);
        if !crosses || a != m.snapshots.len() - 1 {
            assert(snaps1[a] == m.snapshots[a]);
            assert(crate::model::eff_last(m.snapshots[a], m.global_index)
                <= m.snapshots[b].first_index);
            assert(m.snapshots[a].last_index is Some);
        }
    }
    // After a crossing every carried-over entry is closed.
    if crosses {
        assert forall|k: int| 0 <= k < snaps1.len() implies (#[trigger] snaps1[k].last_index)
            is Some by {
            if m.snapshots.len() > 0 && m.snapshots.last().day == m.config.last_snapshot_day && k
                == m.snapshots.len() - 1 {
            } else {
                assert(snaps1[k] == m.snapshots[k]);
                if k == m.snapshots.len() - 1 {
                    // an open final entry would sit at the open day
                }
            }
        }
    }
    if snaps1.len() > 0 && snaps1.last().day == day1 {
        assert(snaps2 == snaps1);
        assert(wf_snapshots(m1));
    } else {
        let e_new = crate::model::SnapshotModel {
            day: day1,
            first_index: g1,
            last_index: Option::None,
        };
        assert(snaps2 == snaps1.push(e_new));
        assert forall|k: int| 0 <= k < snaps1.len() implies #[trigger] snaps1[k].day < day1 by {
            assert(snaps1[k].day == m.snapshots[k].day);
            if !crosses {
                // only the final entry could sit at the open day
                if snaps1[k].day == day1 {
                    assert(k == snaps1.len() - 1);
                }
            }
        }
        assert forall|k: int| 0 <= k < snaps1.len() implies (#[trigger] snaps1[k].last_index)
            is Some by {
            if !crosses {
                assert(snaps1[k] == m.snapshots[k]);
                if k == m.snapshots.len() - 1 && m.snapshots[k].last_index is None {
                    assert(m.snapshots.last().day == m.config.last_snapshot_day);
                }
            }
        }
        assert forall|a: int, b: int| 0 <= a < b < snaps2.len() implies #[trigger] snaps2[a].day
            < #[trigger] snaps2[b].day by {
            if b < snaps1.len() {
                assert(snaps2[a] == snaps1[a] && snaps2[b] == snaps1[b]);
            } else {
                assert(snaps2[a] == snaps1[a] && snaps2[b] == e_new);
            }
        }
        assert forall|a: int, b: int| 0 <= a < b < snaps2.len() implies crate::model::eff_last(
            #[trigger] snaps2[a],
            g1,
        ) <= (#[trigger] snaps2[b]).first_index by {
            if b < snaps1.len() {
                assert(snaps2[a] == snaps1[a] && snaps2[b] == snaps1[b]);
            } else {
                assert(snaps2[a] == snaps1[a] && snaps2[b] == e_new);
            }
        }
        assert forall|k: int| 0 <= k < snaps2.len() implies {
            let e = #[trigger] snaps2[k];
            &&& 0 <= e.day <= day1
            &&& 0 <= e.first_index
            &&& e.first_index <= crate::model::eff_last(e, g1)
            &&& crate::model::eff_last(e, g1) <= g1
        } by {
            if k < snaps1.len() {
                assert(snaps2[k] == snaps1[k]);
            } else {
                assert(snaps2[k] == e_new);
            }
        }
        assert forall|k: int| 0 <= k < snaps2.len() - 1 implies (#[trigger] snaps2[k].last_index)
            is Some by {
            assert(snaps2[k] == snaps1[k]);
        }
        assert(wf_snapshots(m1));
    }
    assert(wf_positions(m1));
    assert(wf_buckets(m1));
    assert(wf(m1));
    assert(fresh(m1, now));
}

} // verus!
