//! Disk-usage inspection library: an immutable file-tree snapshot with
//! verified recursive size aggregation, and content-based duplicate-file
//! grouping over that tree.

pub mod size;
pub mod snapshot;
pub mod file_tree;
pub mod doublons;
pub mod print_tree;
