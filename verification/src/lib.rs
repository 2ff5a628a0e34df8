//! Navigation through the call graph of a Rust project.

pub mod cells;
pub mod chords;
pub mod compact;
pub mod indexing;
pub mod laws;
pub mod paint;
pub mod table;
pub mod text;
pub mod ui;
