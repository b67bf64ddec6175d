//! The read-only benchmark: one bulk write, then reads.
pub mod benchmark;
pub mod dmap;
