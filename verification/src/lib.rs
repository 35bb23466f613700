//! A deterministic, tick-driven maze-chase simulation: the grid, the player's
//! movement, the ghosts' behaviour, the tick that composes them, and the
//! recording format that lets a run be replayed.

pub mod direction;
pub mod game;
pub mod ghosts;
pub mod grid;
pub mod input;
pub mod replay;
pub mod sim;
pub mod text;
