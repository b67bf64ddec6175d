//! Two key-value benchmarks for a distributed heap.
//!
//! `feedgen` fills one table and reads it back; `feedgen_rw` mixes reads and writes under a lock
//! per bucket. Both spread a key trace over servers and threads, and both walk a small graph
//! every few operations to keep the processor busy between accesses.
pub mod conf;
pub mod dataset;
pub mod entry;
pub mod feedgen;
pub mod feedgen_rw;
pub mod graph;
pub mod random;
pub mod schedule;
pub mod socialnet_stub;
