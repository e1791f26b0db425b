//! Volumes: which there are, and the paths of what lies on them.

pub mod drives;
pub mod guarantees;
pub mod paths;
pub mod tree;
pub mod walker;
