//! A write-back, single-flight, read-through key/value cache core.
//!
//! The cache sits between callers and a slow backing store. Concurrent
//! misses on one key are coalesced into a single fetch, recently used
//! values are held in memory under shared handles, and evicted values are
//! queued for asynchronous write-back to the store.
//!
//! This crate is the caching engine itself: the index, the single-flight
//! protocol, the reclamation gate, the pruner's sweep, and the drain. Keys
//! and values are identity tokens (`u64`); a runner that owns the real
//! values, the clock, and the task scheduler drives the engine through its
//! public operations and performs the store calls it is told to make.

pub mod cache;
pub mod laws;
pub mod state;
