pub mod board;
pub mod game;
pub mod network;
pub mod piece;
pub mod position;
