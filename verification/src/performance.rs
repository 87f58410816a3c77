//! The arithmetic and key layout of the synthetic cache load.
pub mod store_perf_helper;
