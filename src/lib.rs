//! Conway's Game of Life on a bounded grid, with the grid cut into
//! horizontal bands that advance side by side and trade boundary rows.
pub mod comm;
pub mod error;
pub mod grid;
pub mod life;
pub mod pattern;
pub mod worker;

pub use error::GridError;
pub use grid::GameState;
