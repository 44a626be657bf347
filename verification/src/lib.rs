//! Bonded, bounded delegation trees.
//!
//! Accounts create root groups by posting a deposit, delegate authority to
//! subgroups up to a bounded depth and branching factor, add or remove
//! members up to a bounded group size, and revoke a branch, recursively
//! tearing down its whole subtree. Deposits scale linearly with group size
//! and exponentially with depth and branching, so the cost of the recursive
//! teardown stays bounded by the module-wide limits.

pub mod balances;
pub mod forest;
pub mod laws;
pub mod members;
pub mod mock;
pub mod pallet;
pub mod types;
