//! Graph construction and graph algorithms.

pub mod depth_first;
pub mod digraph;
pub mod link_order;
pub mod facts;
pub mod scc;
pub mod timing;
pub mod topology;
pub mod toposort;
