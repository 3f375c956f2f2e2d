//! Turn engine and session registry of a multiplayer, Monopoly-style board
//! game server.

pub mod action;
pub mod board;
pub mod dice;
pub mod game;
pub mod laws;
pub mod registry;

pub use action::PlayerAction;
