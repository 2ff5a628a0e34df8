//! The dialogue with the user.

pub mod callgraph;
pub mod explore;
pub mod laws;
pub mod menu;
pub mod navigation;
pub mod prompt;
pub mod runs;
pub mod session;
pub mod tree;
