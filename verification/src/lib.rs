//! A 2048 game and its players.
//!
//! `board`, `line` and `game` hold the game on a packed 64-bit board, with a
//! random tile after each move; `solver` searches for the next move;
//! `grid` and `page` hold the player for the web version of the game, which
//! works on rows of tile values read from the page; `tally` counts finished
//! games by their highest tile; `laws` states what holds across operations.
pub mod board;
pub mod game;
pub mod grid;
pub mod laws;
pub mod line;
pub mod page;
mod random;
pub mod tally;
pub mod solver;
