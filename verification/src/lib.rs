//! An in-process HTTP cache core: three eviction policies (SIEVE, LRU, FIFO)
//! built on an arena-allocated intrusive doubly-linked list, a sharded
//! container that partitions keys across 64 policy instances, and a facade
//! that serves an HTTP proxy and a RESP command adapter.
//!
//! Every policy operation is specified against a ghost model of the cache
//! (an ordered sequence of entries plus counters), and the proofs tie the
//! executable state to that model at every step. Time never comes from a
//! clock inside the library: callers pass a monotonic timestamp in
//! milliseconds, so expiry is a pure function of the arguments.

pub mod arena;
pub mod cache_layer;
pub mod config;
pub mod fifo;
pub mod lru;
pub mod model;
pub mod resp;
pub mod sharded;
pub mod sieve;
pub mod traits;
