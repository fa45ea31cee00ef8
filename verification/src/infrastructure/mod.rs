//! Storage, eviction and the layer that brings all parts together.

pub mod eviction;
pub mod layer;
pub mod storage;
