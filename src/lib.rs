//! Session and board engine for a two-player naval combat game: boards and
//! fleet placement, game sessions, the registry of users and rooms, and the
//! queue of outbound events.

pub mod board;
pub mod events;
pub mod game;
pub mod ships;
pub mod state;
