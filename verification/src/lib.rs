//! A cache-hierarchy simulator: set-associative caches with configurable write
//! and replacement policies, stream prefetching and a paged main memory, driven by
//! a trace of reads and writes.

pub mod bypass;
pub mod cache;
pub mod error;
pub mod geometry;
pub mod hierarchy;
pub mod memory;
pub mod prefetch;
pub mod replacement;
pub mod storage;
pub mod trace;
