//! A time-decaying value-locking engine.
//!
//! Users lock a fungible asset into positions that carry an unlock epoch. Each
//! user holds an "energy" value: the sum over live positions of the amount times
//! the epochs left until it unlocks. Leaving a position early, or shortening it,
//! costs a penalty drawn from a tiered fee schedule; penalties are batched per
//! week before they are handed to a fee collector.
pub mod error;
pub mod penalty;
pub mod positions;
pub mod energy;
pub mod fees;
pub mod engine;
pub mod claim_only_boosted_staking_rewards;
