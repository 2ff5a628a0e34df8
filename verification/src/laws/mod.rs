//! What the operations of this library are for, in terms of what goes in and what
//! comes out.

pub mod calls;
pub mod cells;
pub mod chords;
pub mod graph;
pub mod index;
pub mod navigation;
pub mod overview;
pub mod paint;
pub mod placed;
pub mod pretty;
pub mod progress;
pub mod prompt;
pub mod text;
pub mod tree;
