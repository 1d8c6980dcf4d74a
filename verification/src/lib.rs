//! Segmented prime sieve whose bulk work is done by a parallel compute kernel.
//!
//! The library holds the host-side logic: the base prime generator, the
//! planner that fits a bit-packed work buffer to the dispatch limits, the bit
//! convention and its decoder, the kernel's contract with a sequential
//! reference, the byte layout of what crosses to the accelerator, and the
//! orchestrator that stitches the segments into one increasing prime list.

pub mod error;
pub mod plan;
pub mod bitset;
pub mod primes;
pub mod kernel;
pub mod transfer;
pub mod config;
pub mod orchestrator;
pub mod host;
pub mod report;
