//! Perfect-maze generation, validation and solving on rectangular grids.

pub mod grid;
pub mod maze;
pub mod generator;
pub mod validator;
pub mod solver;
pub mod chance;
pub mod clock;
pub mod config;
pub mod text;
pub mod render;
pub mod training;
pub mod command;
pub mod monitor;
pub mod laws;
pub mod tree;
pub mod spanning;
