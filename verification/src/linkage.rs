//! Incremental single-linkage clustering of points in 3-D integer space.
//!
//! Data flows from points, through the generated edges and their ascending
//! queue, into the partition that the merge engine coarsens step by step.

pub mod edge;
pub mod engine;
pub mod laws;
pub mod partition;
pub mod point;
pub mod snapshot;
