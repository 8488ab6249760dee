//! A verified on-chain governance engine: proposals, weighted voting,
//! delegation, and timelocked execution, all stored in a single flat
//! `key=value` ledger record.
//!
//! Every public operation is a pure function from the current record and the
//! call's inputs to a new record or a typed error code; an error always means
//! that no change occurred.

pub mod config;
pub mod num;
pub mod hex;
pub mod hash;
pub mod record;
pub mod keys;
pub mod types;
pub mod members;
pub mod governor;
pub mod counting;
pub mod delegation;
pub mod timelock;
pub mod operations;
pub mod signatures;
pub mod engine;
