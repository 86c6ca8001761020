pub mod game;
pub mod pieces;
pub mod utils;
