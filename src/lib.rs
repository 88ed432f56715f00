//! An append-only binary Merkle accumulator of fixed depth, kept as a frontier
//! of cached left siblings, with stateless verification of inclusion proofs.

pub mod keccak;
pub mod model;
pub mod tree;
pub mod laws;
