//! What an operation reports of itself, for whoever indexes or displays the
//! game. The operations of this crate hand these out as values, in the order
//! in which they occurred.
use crate::state::Identity;
use vstd::prelude::*;

verus! {

/// A player took a slot of the session.
#[derive(Clone, Copy, PartialEq, Eq, Debug)]
pub struct PlayerRegisteredEvent {
    pub player: Identity,
    pub game_id: u64,
}

/// The last slot was taken and the session began to run.
#[derive(Clone, Copy, PartialEq, Eq, Debug)]
pub struct GameStartedEvent {
    pub game_id: u64,
}

/// A player's move was accepted and carried out.
#[derive(Clone, Copy, PartialEq, Eq, Debug)]
pub struct MoveMadeEvent {
    pub player: Identity,
    pub game_id: u64,
}

/// The king tile was put on another cell.
#[derive(Clone, Copy, PartialEq, Eq, Debug)]
pub struct KingMoveEvent {
    pub game_id: u64,
    pub king_move: u8,
}

/// A player landed on the king tile.
#[derive(Clone, Copy, PartialEq, Eq, Debug)]
pub struct PlayerScoredEvent {
    pub player: Identity,
    pub game_id: u64,
}

/// The powerup tile was put on another cell.
#[derive(Clone, Copy, PartialEq, Eq, Debug)]
pub struct PowerupMoveEvent {
    pub game_id: u64,
    pub powerup_move: u8,
}

/// A player, named by its id, spent its charge on a power push.
#[derive(Clone, Copy, PartialEq, Eq, Debug)]
pub struct PowerUsedEvent {
    pub player: u8,
    pub game_id: u64,
}

/// A player landed on the powerup tile and holds a charge.
#[derive(Clone, Copy, PartialEq, Eq, Debug)]
pub struct PlayerScoredPowerupEvent {
    pub player: Identity,
    pub game_id: u64,
}

/// The bomb tile was put on another cell.
#[derive(Clone, Copy, PartialEq, Eq, Debug)]
pub struct BombDropEvent {
    pub game_id: u64,
    pub bomb_drop: u8,
}

/// A player landed on the bomb tile and was sent home.
#[derive(Clone, Copy, PartialEq, Eq, Debug)]
pub struct PlayerScoredBombEvent {
    pub player: Identity,
    pub game_id: u64,
}

/// Any one of the reports above.
#[derive(Clone, Copy, PartialEq, Eq, Debug)]
pub enum GameEvent {
    PlayerRegistered(PlayerRegisteredEvent),
    GameStarted(GameStartedEvent),
    MoveMade(MoveMadeEvent),
    KingMove(KingMoveEvent),
    PlayerScored(PlayerScoredEvent),
    PowerupMove(PowerupMoveEvent),
    PowerUsed(PowerUsedEvent),
    PlayerScoredPowerup(PlayerScoredPowerupEvent),
    BombDrop(BombDropEvent),
    PlayerScoredBomb(PlayerScoredBombEvent),
}

} // verus!
