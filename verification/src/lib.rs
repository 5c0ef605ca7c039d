//! An append-only, tamper-evident ledger: hash-chained records, Merkle-sealed
//! blocks, and inclusion proofs, with every function proved against a
//! mathematical model of what it returns.

pub mod cli;
pub mod forgery;
pub mod hashing;
pub mod ledger;
pub mod merkle;
pub mod models;
pub mod sensitivity;
