//! Fair Proof-of-Contribution consensus library: block and transaction
//! encodings, difficulty targets, share accounting, bonds, slashing proofs
//! and chain synchronisation decisions, with their contracts proved by Verus.

pub mod types;
pub mod bignum;
pub mod target;
pub mod crypto;
pub mod encoding;
pub mod clock;
pub mod header;
pub mod wallet;
pub mod merkle;
pub mod tx;
pub mod bond;
pub mod share;
pub mod aggregate_pool;
pub mod pool;
pub mod slashing;
pub mod text;
pub mod sync;
pub mod chain;
pub mod ddos;
pub mod peer;
pub mod miner;
