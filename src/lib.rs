//! Conway's Game of Life on a fixed-size toroidal grid, with the cell states
//! held in a packed bit set.

pub mod bitset;
pub mod universe;

pub use bitset::bits_of;
pub use universe::Universe;
