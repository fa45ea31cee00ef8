//! Coordination of policies, counters and summaries.

pub mod circuit_breaker;
pub mod emitter;
pub mod guarantees;
pub mod limiter;
pub mod metrics;
pub mod ports;
pub mod registry;
