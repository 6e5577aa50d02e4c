//! Conway's Game of Life on a fixed square grid with a permanently excluded
//! outer ring, together with machine-checked statements of how one
//! generation follows from the previous one.

pub mod input;
pub mod laws;
pub mod rule;
pub mod seed;
pub mod world;

pub use rule::{CELL_COUNT, WORLD_SIZE};
pub use world::World;
