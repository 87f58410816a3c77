//! A bucketed in-memory cache whose entries live in fixed-size cache lines.
use vstd::prelude::*;

pub mod bits;
pub mod bucket;
pub mod bytes;
pub mod cache;
pub mod cl;
pub mod cl_store;
pub mod free_set;
pub mod performance;

verus! {

} // verus!
