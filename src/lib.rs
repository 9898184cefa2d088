//! A funding-round ledger: contributions toward projects, tallied per project
//! and per voter for each round and currency, with an admin set guarding the
//! privileged operations.

pub mod coins;
pub mod contract;
pub mod error;
pub mod funds;
pub mod laws;
pub mod order;
pub mod sums;
pub mod types;
