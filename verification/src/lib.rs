//! Tic Tac Flic Flac Floe: the game's rules, a compact bit encoding of its
//! states and moves, and an exhaustive exploration of the reachable states.
pub mod logic;
pub mod bits;
mod fx_set;
pub mod game_set;
pub mod explore;
pub mod play;
