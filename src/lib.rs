//! A spine of immutable update batches: an append-only, frontier-aware trace
//! that merges its batches under a doubling discipline.
pub mod batch;
pub mod cursor;
pub mod frontier;
pub mod spine;
pub mod update;
