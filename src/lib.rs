//! An on-demand image transformation proxy core: a compact token codec for
//! ordered operation lists, a least-recently-used cache of fetched source
//! bytes, and an ordered transform pipeline over pixel buffers.

pub mod model;
pub mod codec;
pub mod cache;
pub mod engine;
pub mod request;
