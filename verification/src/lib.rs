//! Partitioned PageRank over large directed graphs: the graph codec, the
//! grouping utilities, the local transpose and the per-worker bookkeeping.

pub mod aggregate;
pub mod encode;
pub mod graphmap;
pub mod operator;
pub mod partition;
pub mod sorting;
pub mod transpose;
pub mod typedrw;

pub use crate::transpose::transpose;
