//! The named conditions under which an operation is rejected.
use vstd::prelude::*;

verus! {

/// Why an operation on a session was rejected. A rejected operation leaves
/// the session exactly as it found it.
#[derive(Clone, Copy, PartialEq, Eq, Structural, Debug)]
pub enum KingTilesError {
    /// Registration was attempted after every slot had been taken.
    MaxPlayersReached,
    /// Registration was attempted on a session that is already running.
    GameAlreadyStarted,
    /// The caller is not bound to the player id it claims.
    NotPlayer,
    /// The session is not running.
    GameNotActive,
    /// Not every slot of the session has been taken yet.
    GameNotFull,
    /// The session has not been started.
    GameNotStarted,
    /// The session's time has run out.
    GameEnded,
    /// The session's time has not run out yet.
    GameNotOver,
    /// The requested cell is off the board or not empty.
    InvalidMove,
    /// A power push was requested without a pending charge.
    NoPowerup,
    /// The power push cannot be carried out.
    InvalidPowerupMove,
    /// The side length and player count are not a supported pair, or a rate
    /// is zero.
    InvalidGameConfig,
}

impl KingTilesError {
    /// The human-readable text that goes with the condition.
    pub open spec fn text(self) -> Seq<char> {
        match self {
            KingTilesError::MaxPlayersReached => "Maximum players already registered for this game"@,
            KingTilesError::GameAlreadyStarted => "Game has already started; no more registrations allowed"@,
            KingTilesError::NotPlayer => "Player is not registered for this game"@,
            KingTilesError::GameNotActive => "Game is not active"@,
            KingTilesError::GameNotFull => "Game is not full"@,
            KingTilesError::GameNotStarted => "Game is not started"@,
            KingTilesError::GameEnded => "Game has ended"@,
            KingTilesError::GameNotOver => "Game is not over"@,
            KingTilesError::InvalidMove => "Invalid move"@,
            KingTilesError::NoPowerup => "No powerup available"@,
            KingTilesError::InvalidPowerupMove => "Invalid powerup move"@,
            KingTilesError::InvalidGameConfig => "Invalid game configuration"@,
        }
    }

    /// The human-readable text that goes with the condition.
    pub fn message(&self) -> (text: &'static str)
        ensures
            text@ == self.text(),
    {
        match self {
            KingTilesError::MaxPlayersReached => "Maximum players already registered for this game",
            KingTilesError::GameAlreadyStarted => {
                "Game has already started; no more registrations allowed"
            },
            KingTilesError::NotPlayer => "Player is not registered for this game",
            KingTilesError::GameNotActive => "Game is not active",
            KingTilesError::GameNotFull => "Game is not full",
            KingTilesError::GameNotStarted => "Game is not started",
            KingTilesError::GameEnded => "Game has ended",
            KingTilesError::GameNotOver => "Game is not over",
            KingTilesError::InvalidMove => "Invalid move",
            KingTilesError::NoPowerup => "No powerup available",
            KingTilesError::InvalidPowerupMove => "Invalid powerup move",
            KingTilesError::InvalidGameConfig => "Invalid game configuration",
        }
    }
}

} // verus!
