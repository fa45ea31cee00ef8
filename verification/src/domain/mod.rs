//! Rules and values of rate limiting: policies, signatures, counters and summaries.

pub mod time;
pub mod text;
pub mod names;
pub mod fields;
pub mod signature;
pub mod metadata;
pub mod summary;
pub mod policy;
