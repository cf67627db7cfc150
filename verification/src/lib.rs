//! A verified minesweeper game engine: board generation with a
//! first-click-safe randomized mine placement, cell state transitions,
//! flood-fill reveal, chording, and win/loss detection.

pub mod counting;
pub mod game;
