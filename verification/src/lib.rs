//! Verified core of the hardware latency micro-benchmarks: the text rules of
//! the report, the sample statistics, the random pointer-chase cycle, the
//! cache-size boundary grouping and the integer kernels that are timed.

pub mod decimal;
pub mod rounding;
pub mod layout;
pub mod machine;
pub mod harness;
pub mod random;
pub mod benches;
