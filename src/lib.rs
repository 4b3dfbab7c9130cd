//! A height-indexed frontier queue over the nodes of a tree, and a routine
//! that brings the frontiers of two trees to the same maximum height.

pub mod arena;
pub mod hqueue;
pub mod laws;

pub use arena::{Arena, DstNodeId, NodeId, SrcNodeId};
pub use hqueue::{match_heights, HeightQueue};
