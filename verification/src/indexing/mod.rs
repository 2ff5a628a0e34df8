//! The functions of a project and who calls whom.

pub mod index;
pub mod json;
pub mod laws;
pub mod placed;
pub mod pretty;
pub mod progress;
pub mod symbols;
pub mod uri;
