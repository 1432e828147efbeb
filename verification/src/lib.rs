//! Grid math and map-generation logic for a territory-control game played on a
//! triangular-tile grid, with its behaviour stated as Verus contracts.

pub mod components;
pub mod config;
pub mod game;
pub mod grid;
pub mod map;
pub mod mapgen;
pub mod protocol;
pub mod states;
pub mod world_model;

pub use states::{AppState, GameMode};
