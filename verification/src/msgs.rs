//! Plain message and response types of the engine's interface.
//!
//! The host's envelope (deserialization, dispatch, addresses) lives outside
//! the library; these types carry the queries and answers as plain values.

use vstd::prelude::*;

verus! {

/// Queries the staking engine answers.  Wallets are the host's account
/// names; the host maps them to the numeric participant ids the ledger is
/// keyed by.
#[derive(Clone, Debug, PartialEq)]
pub enum QueryMsg {
    QueryTotalReward {},
    QueryTotalRewardInContract {},
    QueryStakedByUser { wallet: String, duration: u64 },
    QueryTotalDailyReward {},
    QueryUserReward { wallet: String, duration: u64 },
    QueryUserStakedTime { wallet: String, duration: u64 },
    QueryDistributionWaitTime {},
    QueryFreezeLockTime {},
    QueryLockTimeFrame {},
    QueryLastDistributionTime {},
    QueryConfig {},
    QueryCommunityAddr {},
    QueryTotalStakedByDuration { duration: u64 },
    Balance { address: String },
    BalanceByDuration { address: String, duration: u64 },
    TotalBalance { duration: u64 },
}

/// The balance-oriented subset of the query interface.
#[derive(Clone, Debug, PartialEq)]
pub enum Cw20QueryMsg {
    Balance { address: String },
    BalanceByDuration { address: String, duration: u64 },
    TotalBalance { duration: u64 },
}

/// Carried by a migration call; the engine's state needs nothing from it.
#[derive(Clone, Copy, Debug, PartialEq, Eq, Structural)]
pub struct MigrateMsg {}

/// The engine's configuration, as the config query reports it.
#[derive(Clone, Copy, Debug, PartialEq, Eq, Structural)]
pub struct ConfigResponse {
    pub lock_seconds_per_unit: u64,
    pub day_length_seconds: u64,
    pub emission_period_seconds: u64,
    pub freeze: bool,
    pub freeze_start: u64,
    pub freeze_lock_seconds: u64,
    pub last_distributed_at: u64,
    pub last_snapshot_day: u64,
}

/// When a position was staked and last claimed.
#[derive(Clone, Copy, Debug, PartialEq, Eq, Structural)]
pub struct UserStakedTimeResponse {
    pub staked_time: u64,
    pub last_claimed_time: u64,
}

/// A position's lock window: when it was staked, when the lock started and
/// when it ends.
#[derive(Clone, Copy, Debug, PartialEq, Eq, Structural)]
pub struct UserStakedTime {
    pub user_staked_time: u64,
    pub user_start_time: u64,
    pub user_end_time: u64,
}

} // verus!
