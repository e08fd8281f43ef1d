pub mod game;
pub mod solver;
