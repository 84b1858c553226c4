//! A verified reward-accrual engine for duration-locked staking.
//!
//! Participants lock a principal for a chosen duration; the locked value's
//! "power" decays linearly toward zero as the lock matures.  A global,
//! fixed-point reward index is advanced by periodic distributions, pro-rata
//! over the decaying power, and each participant's earned-but-unclaimed
//! reward is reconstructed lazily from a compact day-keyed snapshot log of
//! the index's history.
//!
//! The engine is a deterministic state machine: every operation is a pure
//! function of an explicit [`store::Store`] value, the operation's arguments
//! and the host-supplied clock.  Each executable operation is specified
//! against a mathematical transition function over the store's ghost model,
//! and the general properties of the design (decay monotonicity, index
//! conservation, no double payment, reconstruction completeness) are proved
//! in [`laws`].

pub mod decay;
pub mod model;
pub mod transition;
pub mod invariants;
pub mod store;
pub mod laws;
pub mod msgs;
pub mod token;
