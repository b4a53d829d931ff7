//! A verified native model of an epoch ledger that is checkpointed by a folded
//! validity proof: BN254 scalar-field elements, Poseidon hashing, an incremental
//! Merkle tree of accounts, the ledger executor that emits per-operation witnesses,
//! and the exact transition that the step circuit enforces on those witnesses.

pub mod field;
pub mod poseidon;
pub mod imt;
pub mod ops;
pub mod circuit;
pub mod ledger;
pub mod native;
pub mod newline;
pub mod prover;
pub mod workload;
