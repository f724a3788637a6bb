//! A named hierarchy of rigid-body transforms with cached world transforms.
//!
//! Nodes live in a dense arena addressed by integer handles. Each node holds a
//! transform relative to its parent; the store keeps a cached world transform per
//! node together with a dirty flag, and recomputes stale entries on demand.
//! A name-addressed file representation converts into the store.
pub mod pose;
pub mod tree;
pub mod names;
pub mod file;

pub use file::{FileNode, FileTransformTree, FileTransformTreeError};
pub use tree::{NodeId, TransformTree};
