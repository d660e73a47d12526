//! Portfolio allocation and rebalancing engine.
//!
//! Monetary amounts are held as integers counting hundredths: cents for
//! holdings, hundredths of a percentage point for allocation accounts.
pub mod account;
pub mod amount;
pub mod asset;
pub mod error;
pub mod laws;
pub mod user;
