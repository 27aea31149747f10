//! A whitelist-gated, capped token-minting authorization library.
//!
//! Two layers: `merkle` proves inclusion of a claimant's leaf under a
//! published Merkle root, and `distributor` combines that proof check with
//! ownership and cap enforcement over a persistent bookkeeping record.

pub mod merkle;
pub mod distributor;
pub mod tree;
