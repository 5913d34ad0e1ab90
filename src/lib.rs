//! A generalised N×N×N twisty puzzle held as a flat array of facelet colours,
//! with layer twists applied as index permutations.

pub mod face;
pub mod geometry;
pub mod cube;
pub mod laws;
