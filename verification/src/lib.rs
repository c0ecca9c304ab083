//! Rules engine and search-based players for the game of Go.

pub mod board;
pub mod connectivity;
pub mod game;
pub mod players;
pub mod rules;
pub mod scoring;
pub mod search;
