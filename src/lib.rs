//! Infers the ancestry tree of a repository's local branches and renders it
//! as an indented ASCII tree.

pub mod branch;
pub mod resolve;
pub mod forest;
pub mod render;
pub mod tree;
pub mod laws;
