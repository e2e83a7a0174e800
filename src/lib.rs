//! Merging of sorted key-value sources into one de-duplicated, tombstone-aware
//! stream: a priority merge, a top-level cursor that hides deleted keys, and a
//! wrapper that stays invalid once a step has failed.
pub mod key;
pub mod iterator;
pub mod merge_spec;
pub mod merge_iterator;
pub mod lsm_iterator;
pub mod fused_iterator;
