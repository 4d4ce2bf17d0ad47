//! Disk-usage treemaps: a hierarchical size model over paths, a squarified
//! rectangle packer, a small-item partitioner and the render-tree builder
//! that composes them.

pub mod paths;
pub mod expand_state;
pub mod partition;
pub mod tree;
pub mod treemap;
pub mod render_tree;
pub mod animation;
pub mod category;
pub mod crawler;
