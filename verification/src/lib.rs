//! A gossip-based peer-to-peer overlay with a bootstrap registry.
//!
//! Seed nodes keep a directory of live peer endpoints; peer nodes join via
//! seeds, sample neighbors, flood gossip frames with duplicate suppression,
//! and evict neighbors that stop answering liveness probes.  This crate holds
//! the protocol logic: the wire codec, the clock-string helpers, the seed and
//! peer state machines, and the random sampler.  All network I/O lives with
//! the callers.

pub mod addrs;
pub mod bytes;
pub mod clock;
pub mod codec;
pub mod peer;
pub mod sampler;
pub mod seed;
