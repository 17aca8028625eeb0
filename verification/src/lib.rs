//! Search for the multipliers of perfect hash tables over sliding-piece
//! occupancies on an 8x8 board, with the ray attacks they are built from.

pub mod attacks;
pub mod bounds;
pub mod entry;
pub mod generator;
pub mod geometry;
pub mod lookup;
pub mod random;
pub mod subsets;
pub mod table;
