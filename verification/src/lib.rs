//! A small real-time strategy game on a hexagonal map: map generation,
//! flags that attract armies, computer opponents and the simulation step.
pub mod common;
pub mod grid;
pub mod flood;
pub mod flags;
pub mod rng;
pub mod king;
pub mod state;
pub mod sim;
pub mod turns;
pub mod mapgen;
pub mod setup;
pub mod output;
pub mod ready;
