//! Rules engine for a Scrabble-style word game: the board and its word
//! scanner, tiles, racks and the bag, turn validation, scoring and the game
//! lifecycle.

pub mod bag;
pub mod board;
pub mod error;
pub mod game;
pub mod score;
pub mod tile;
pub mod turn;
pub mod words;

pub use error::Error;
pub use tile::{Square, Tile};
