pub mod counting;
pub mod minefield;
pub mod game;
pub mod overlay;
mod rng;
