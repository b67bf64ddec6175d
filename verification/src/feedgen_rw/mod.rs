//! The mixed benchmark: reads and writes under a lock per bucket.
pub mod benchmark;
pub mod dmap;
