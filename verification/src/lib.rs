//! Verified core of a block-DAG header-processing pipeline.
//!
//! The crate models the stage that admits block headers into a persistent
//! DAG: per-level parent/child relations, a reachability index, the
//! GHOSTDAG ordering computation, a dependency manager that releases a
//! header only once all its parents were admitted, and an address
//! directory for known peers.

pub mod addresses;
pub mod config;
pub mod deps_manager;
pub mod errors;
pub mod ghostdag;
pub mod hashes;
pub mod header;
pub mod keymap;
pub mod pow;
pub mod processor;
pub mod random;
pub mod reachability;
pub mod relations;
pub mod set_cache;
pub mod stores;
pub mod status;
pub mod wallet;
pub mod windows;
