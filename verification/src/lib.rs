//! Rate limiting and deduplication of log events.

pub mod application;
pub mod domain;
pub mod infrastructure;
