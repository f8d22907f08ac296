//! A verified Minesweeper board engine.
//!
//! The library models the grid, the deferred mine placement with its safety
//! zone, the neighbor-count derivation, the flood-fill reveal with chording,
//! and win/loss detection. Rendering and input live outside the library.

pub mod board;
pub mod cells;
pub mod counting;
