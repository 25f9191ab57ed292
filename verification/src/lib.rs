//! A sparse octree whose level of detail follows a focus point.
//!
//! The tree is rebuilt top-down around the focus each cycle and then
//! enumerated depth-first; every function carries a contract that Verus
//! proves.

pub mod address;
pub mod builder;
pub mod criterion;
pub mod octree;
pub mod traversal;
pub mod walker;

pub use address::{power_of_two, NodeAddress, WorldBox, WorldPoint};
pub use builder::{fill_from_root, fill_path_to_node, rebuild, refine_around, Visit};
pub use octree::{NodeEntry, OctreeError, SparseOctree};
pub use traversal::VisitCommand;
pub use walker::{categorize, visible_nodes, visit_depth_first, NodeCategory, VisibleNode, WalkStep};
