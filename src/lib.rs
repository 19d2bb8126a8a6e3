//! A service registry replicated by consensus: a Raft node over a durable
//! log, an applier that turns committed entries into registry changes, and
//! the registry that discovery and routing read, with the routing helpers
//! (load balancing, circuit breaking, rate limiting) that sit above it.

pub mod types;
pub mod store;
pub mod discovery;
pub mod log_store;
pub mod quorum;
pub mod raft;
pub mod balancer;
pub mod circuit_breaker;
pub mod rate_limit;
pub mod security;
