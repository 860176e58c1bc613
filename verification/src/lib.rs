//! A service-discovery registry core and a typed distributed-cache codec.
//!
//! The crate has two halves:
//! * the cache half: a type-tagged key model (`CacheKey`), a closed family of
//!   cache values (`CacheValue`) with a deterministic byte encoding, and a
//!   compact binary envelope (`CacheItemDo`) for replicated storage;
//! * the naming half: an in-memory instance registry (`Service`) that merges
//!   partial instance updates and evicts or demotes instances using a
//!   time-ordered health window.

pub mod cache;
pub mod envelope;
pub mod instance;
pub mod service;
pub mod value;
pub mod wire;
