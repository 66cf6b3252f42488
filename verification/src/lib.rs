//! Bookkeeping for bump arenas, a slot pool and a growable buffer.

pub mod bucket_array;
pub mod bucket_list;
pub mod chain;
pub mod chunk;
pub mod coalescing_bucket_list;
pub mod refrigerator;
pub mod simple_vec;
