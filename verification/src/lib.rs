//! The board logic of a multiplayer Tetris game server.
pub mod bricks;
pub mod laws;
pub mod reducers;
pub mod stdb;
pub mod tables;
pub mod tetris;
