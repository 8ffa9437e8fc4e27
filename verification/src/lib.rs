//! A terminal Minesweeper board engine.
//!
//! The library owns the game state: a hidden truth grid (mines and
//! adjacency numbers) and a visible mask grid (what the player has done),
//! together with mine placement, flood-fill reveal, flagging and win
//! detection. Rendering and the command loop live outside the library.

pub mod game;
pub mod utils;
