//! Execution core of a cycler-based robotics stack: dependency declarations,
//! configuration resolution, per-tick scheduling decisions and the temporal
//! join of perception streams.

pub mod configuration;
pub mod field;
pub mod history;
pub mod lines;
pub mod path_tree;
pub mod resolver;
pub mod scheduler;
pub mod segmentation;
pub mod synchronizer;
