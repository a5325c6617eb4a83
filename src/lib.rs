//! Reward farms: time-weighted pro-rata accrual of reward budgets over
//! boosted shares, with an active/inactive reward lifecycle, a durable farm
//! registry and an execution-scoped snapshot cache.
//!
//! The host's clock is not read here: each execution's logical time is
//! handed in, to `AssetFarm::update` directly or through a `FarmCache`.
pub mod math;
pub mod per_share;
pub mod token_map;
pub mod asset_farm;
pub mod registry;
