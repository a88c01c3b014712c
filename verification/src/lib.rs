//! A minimal in-memory key/value store with per-key expiry and topic-based
//! publish/subscribe, meant to sit behind an RPC front end.
//!
//! The store itself — the keyspace, the time-ordered expiration index and the
//! pub/sub registry — is verified. Locking, task spawning and the wire
//! protocol are left to the embedding program.
use vstd::prelude::*;

pub mod bytes;
pub mod db;
pub mod expiry;
pub mod keyspace;
pub mod pubsub;

verus! {

/// Default port that a redis server listens on.
///
/// Used if no port is specified.
pub const DEFAULT_PORT: u16 = 6379;

} // verus!

