//! A verified Minesweeper game engine.
//!
//! The board keeps a rectangular grid with a fixed set of mines, the cells the
//! player has revealed, the cells the player has flagged, and a terminal
//! `lost` flag. Opening a cell with no adjacent mines cascades outward through
//! the connected zero-adjacency region; re-opening a revealed cell whose
//! adjacent mine count matches its flagged-neighbor count auto-opens the
//! remaining neighbors (chording).
#![verifier::loop_isolation(false)]

pub mod board;
pub mod cascade;
pub mod laws;
pub mod render;
pub mod rng;

pub use board::GameError;
pub use board::Minesweeper;
pub use board::OpenResult;
pub use board::Position;
pub use rng::random_range;
