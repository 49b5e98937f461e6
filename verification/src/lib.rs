//! Deterministic core of a multiplayer tile-chase game on a square board
//! that wraps around at every edge.
//!
//! Players take single steps; a king, a powerup and a bomb tile occupy cells
//! and change what a step does. The crate resolves steps and pushes, places
//! the special tiles, and keeps the rule that a cell never holds more than
//! one occupant.
//!
//! - [`state`]: marks, players, directions, the board, and the session's
//!   invariant.
//! - [`geometry`]: cell indices on a board that wraps.
//! - [`placement`]: the first empty cell from a starting cell, and putting a
//!   special tile there.
//! - [`randomness`]: the cell drawn from delivered random bytes.
//! - [`movement`]: resolving a step or a push, chains of displaced players
//!   included.
//! - [`chain`]: why such a chain always ends.
//! - [`preservation`]: why resolving keeps the invariant, and when it does
//!   not.
//! - [`session`]: the operations a host performs on a session.
//! - [`events`], [`error`], [`constants`]: what operations report, why they
//!   are rejected, and the fixed numbers of the game.
pub mod constants;
pub mod error;
pub mod state;
pub mod geometry;
pub mod events;
pub mod randomness;
pub mod placement;
pub mod movement;
pub mod chain;
pub mod preservation;
pub mod session;
