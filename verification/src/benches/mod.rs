//! The logic of the individual benchmarks.

pub mod memory;
pub mod alu;
