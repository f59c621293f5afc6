//! The rules of a 4×4 tile-merging puzzle: sliding and merging tiles, spawning
//! new ones, keeping score and deciding when the game is over.

pub mod board;
pub mod cell;
pub mod direction;
pub mod game;
pub mod grid;
pub mod laws;
pub mod line;
mod random;
pub mod spawn;
pub mod text;
