//! Key chords: short, unambiguous letter combinations.

pub mod cycle;
pub mod debruijn;
pub mod laws;
pub mod necklaces;
pub mod words;
