//! A verified single-use invite-code ledger.
//!
//! The ledger hands out short random invite codes, answers validity checks,
//! and guarantees that each code is consumed at most once.  Codes live in a
//! keyed store; every record is a key `"INVITE:" + code` mapped to a single
//! state byte.

pub mod bytes;
pub mod codes;
pub mod store;
pub mod ledger;
pub mod laws;
pub mod shared;
pub mod config;
