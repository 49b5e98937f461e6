//! Fixed numbers of the game: cell codes, capacities and economic defaults.
use vstd::prelude::*;

verus! {

/// Code of a cell that holds nothing.
pub const EMPTY: u8 = 0;

/// Code of the cell that carries the bomb tile.
pub const BOMB_MARK: u8 = 7;

/// Code of the cell that carries the king tile.
///
/// Player ids run from 1 to [`MAX_PLAYERS`] and are their own cell codes, so
/// every tile code lies above that range.
pub const KING_MARK: u8 = 8;

/// Code of the cell that carries the powerup tile.
pub const POWERUP_MARK: u8 = 9;

/// Largest number of players any supported mode admits.
pub const MAX_PLAYERS: u8 = 6;

/// Number of cells of the largest supported board (12 x 12).
pub const BOARD_SIZE: usize = 144;

/// Default registration fee paid into the treasury, in lamports.
pub const REGISTRATION_FEE_LAMPORTS: u64 = 1_000_000;

/// Default reward per score point, in lamports.
pub const LAMPORTS_PER_SCORE: u64 = 29_000;

/// Starting cell of the king on the largest board: row 5, column 5.
pub const KING_STARTING_POSITION: usize = 65;

/// Value of `powerup_score` that stands for one pending power push, and the
/// number of basic steps such a push spans.
pub const POWERUP_SCORE: u64 = 4;

/// Seconds a session lasts, counted from the moment its last slot fills.
pub const GAME_DURATION_SECONDS: i64 = 60;

/// Offset of one step down on the largest board.
pub const POWER_USE_DIRECTION_DOWNWARDS: i16 = 12;

/// Offset of one step to the right.
pub const POWER_USE_DIRECTION_RIGHTWARDS: i16 = 1;

/// Offset of one step up on the largest board.
pub const POWER_USE_DIRECTION_UPWARDS: i16 = -12;

/// Offset of one step to the left.
pub const POWER_USE_DIRECTION_LEFTWARDS: i16 = -1;

} // verus!
