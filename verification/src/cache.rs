//! The cache proper: cache lines, their per-line byte store, buckets and the hashed cache.
pub mod bucket;
pub mod bucket_laws;
pub mod cache;
pub mod cl;
pub mod cl_store;
