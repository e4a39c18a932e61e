//! Order-preserving compaction of a `u32` buffer: given a list of indices to
//! delete, produce the sequence of the remaining elements in their original
//! relative order.
//!
//! The library offers one logical operation in three interchangeable
//! implementations: a scalar bitmask scan, a merge against a sorted deletion
//! list, and a lane-oriented compactor that works in 16-lane super-groups and
//! 4-lane sub-groups driven by a precomputed permutation table. All three are
//! proved to return the same mathematical result, `compacted`.

pub mod compact;
pub mod model;
pub mod table;
