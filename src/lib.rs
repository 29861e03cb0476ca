//! Minesweeper board engine: tiles, mine placement with adjacency counts,
//! flood-fill opening and marking, each with a verified contract.

pub mod config;
pub mod game;
pub mod board;
pub mod tile;

pub use config::{Config, ConfigError};
pub use tile::{tile_symbol, Tile, TileMarking, TileState, TileValue};
