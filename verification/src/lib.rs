//! Small data-structure library built around a bounded-integer-key priority
//! queue: an array of buckets indexed by a normalized key, with a tracked
//! current maximum, plus a few independent array-like helpers.

pub mod array_like;
pub mod bpqueue;
pub mod dllist;
pub mod map_adapter;
pub mod robin;
