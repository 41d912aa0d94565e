//! A currency-free, trust-oriented append-only replicated log.
//!
//! Independent nodes accept user records, batch them into hash-linked
//! blocks, and reconcile their local chain against peers: the longer,
//! fully-validated chain wins per peer on pull.

pub mod api;
pub mod block;
pub mod chain;
pub mod clock;
pub mod config;
pub mod fifo;
pub mod hashing;
pub mod mempool;
pub mod peers;
pub mod pratt;
pub mod query_chain;
pub mod record;
pub mod woody;
pub mod workers;
