//! The operations a host performs on a session: opening it, registering
//! players, moving, pushing, placing the special tiles, scoring and closing.
//!
//! Every operation checks all it has to check before it changes anything:
//! one that is rejected leaves the session as it was.
use crate::constants::GAME_DURATION_SECONDS;
use crate::error::KingTilesError;
use crate::events::{
    BombDropEvent, GameEvent, GameStartedEvent, KingMoveEvent, MoveMadeEvent,
    PlayerRegisteredEvent, PowerUsedEvent, PowerupMoveEvent,
};
use crate::geometry::{advance, king_start, king_starting_position, toroidal_index, valid_mode};
use crate::movement::{check_board_for_new_position, player_id_to_index, use_power_with_direction};
use crate::placement::{is_first_empty_from, spawn_special_tile, SpecialTile};
use crate::chain::lemma_chain_ends;
use crate::preservation::{
    lemma_bombed_back_breaks_well_formed, lemma_power_keeps_well_formed,
    lemma_step_keeps_well_formed,
};
use crate::randomness::{random_in_range, sampled_in_range};
use crate::state::{
    lemma_consistent_in_bounds, lemma_well_formed_in_bounds, valid_mode_spec, Board, Direction,
    GameState, Identity, Mark, Player,
};
use vstd::prelude::*;

verus! {

/// Whether a session can be opened with these settings: the side length and
/// the player count go together, and neither rate is zero.
pub open spec fn valid_config(
    board_side_len: u8,
    max_players: u8,
    registration_fee_lamports: u64,
    lamports_per_score: u64,
) -> bool {
    valid_mode_spec(board_side_len, max_players) && registration_fee_lamports > 0
        && lamports_per_score > 0
}

/// The session as it is opened: no players, not running, every cell empty
/// but the king's.
pub open spec fn opened(
    game_id: u64,
    board_side_len: u8,
    max_players: u8,
    registration_fee_lamports: u64,
    lamports_per_score: u64,
) -> GameState {
    let side = board_side_len as int;
    GameState {
        game_id,
        players: Seq::empty(),
        is_active: false,
        board: Seq::new(
            (side * side) as nat,
            |c: int|
                if c == king_start(side) {
                    Mark::King
                } else {
                    Mark::Empty
                },
        ),
        board_side_len,
        max_players,
        registration_fee_lamports,
        lamports_per_score,
        players_count: 0,
        king_current_position: king_start(side) as u8,
        last_move_timestamp: 0,
        game_end_timestamp: 0,
        powerup_current_position: 0,
        bomb_current_position: 0,
    }
}

impl GameState {
    /// The session once `payer` has taken the next slot at time `now`: the
    /// new player has the next id and stands on the cell of the same index
    /// as its slot; if that was the last slot, the session runs from `now`
    /// for its fixed duration.
    pub open spec fn registered(self, payer: Identity, now: i64) -> GameState {
        let slot = self.players_count;
        let joined = Player {
            player: payer,
            score: 0,
            current_position: slot as i16,
            id: (slot + 1) as u8,
            powerup_score: 0,
        };
        let last = slot + 1 == self.max_players;
        GameState {
            players: self.players.push(joined),
            board: self.board.update(slot as int, Mark::Player(joined.id)),
            players_count: (slot + 1) as u8,
            is_active: last,
            game_end_timestamp: if last {
                (now + GAME_DURATION_SECONDS) as i64
            } else {
                self.game_end_timestamp
            },
            ..self
        }
    }

    /// What a registration reports: that the session started, if it did,
    /// and that the player registered.
    pub open spec fn registration_events(self, payer: Identity) -> Seq<GameEvent> {
        let registered = GameEvent::PlayerRegistered(
            PlayerRegisteredEvent { player: payer, game_id: self.game_id },
        );
        if self.players_count + 1 == self.max_players {
            seq![GameEvent::GameStarted(GameStartedEvent { game_id: self.game_id }), registered]
        } else {
            seq![registered]
        }
    }

    /// Why a registration is rejected, if it is.
    pub open spec fn registration_refusal(self) -> Option<KingTilesError> {
        if self.players_count >= self.max_players {
            Some(KingTilesError::MaxPlayersReached)
        } else if self.is_active {
            Some(KingTilesError::GameAlreadyStarted)
        } else {
            None
        }
    }

    /// Why a move by `payer` as player `player_id` at time `now` is
    /// rejected, if it is. A session that is not running, or not full, is
    /// said to be so before its end time is looked at: that time is set only
    /// when the last slot is taken.
    pub open spec fn move_refusal(self, now: i64, player_id: u8, payer: Identity) -> Option<
        KingTilesError,
    > {
        if !self.is_active {
            Some(KingTilesError::GameNotStarted)
        } else if self.players_count != self.max_players {
            Some(KingTilesError::GameNotFull)
        } else if now >= self.game_end_timestamp {
            Some(KingTilesError::GameEnded)
        } else if player_id == 0 || player_id - 1 >= self.players_count || self.players[player_id
            - 1].id != player_id || self.players[player_id - 1].player != payer {
            Some(KingTilesError::NotPlayer)
        } else {
            None
        }
    }

    /// The cell that one step in `direction` takes player `p` to.
    pub open spec fn step_target(self, p: int, direction: Direction) -> int {
        toroidal_index(
            self.players[p].current_position as int,
            direction.offset_spec(self.side()),
            self.cells(),
        )
    }

    /// Why a power push by player `player_id` is rejected, if it is.
    pub open spec fn power_refusal(self, player_id: u8) -> Option<KingTilesError> {
        if player_id == 0 || player_id - 1 >= self.players_count {
            Some(KingTilesError::NotPlayer)
        } else if self.players[player_id - 1].powerup_score == 0 {
            Some(KingTilesError::NoPowerup)
        } else {
            None
        }
    }

    /// Why putting the king on `position` by hand is rejected, if it is.
    pub open spec fn king_refusal(self, position: u8) -> Option<KingTilesError> {
        if !self.is_active {
            Some(KingTilesError::GameNotStarted)
        } else if position >= self.cells() {
            Some(KingTilesError::InvalidMove)
        } else if self.board[position as int] != Mark::Empty {
            Some(KingTilesError::InvalidMove)
        } else {
            None
        }
    }

    /// The session with the king put on the empty cell `position`.
    pub open spec fn king_set(self, position: u8) -> GameState {
        GameState {
            board: self.lifted(SpecialTile::King).update(position as int, Mark::King),
            king_current_position: position,
            ..self
        }
    }

    /// The player that a score tick is for: the one whose mark lies on the
    /// cell of the king's index, if a registered player's mark lies there.
    pub open spec fn scorer(self) -> Option<int> {
        match self.board[self.king_current_position as int] {
            Mark::Player(id) => if 1 <= id <= self.players_count {
                Some(id - 1)
            } else {
                None
            },
            _ => None,
        }
    }

    /// The session after a score tick: the player standing on the cell of
    /// the king's index, if one stands there, has one point more.
    pub open spec fn ticked(self) -> GameState {
        match self.scorer() {
            Some(scorer) => GameState {
                players: self.players.update(
                    scorer,
                    Player {
                        score: (self.players[scorer].score + 1) as u64,
                        ..self.players[scorer]
                    },
                ),
                ..self
            },
            None => self,
        }
    }

    /// The identities and scores of the registered players, in registration
    /// order.
    pub open spec fn final_scores(self) -> Seq<(Identity, u64)> {
        Seq::new(
            self.players_count as nat,
            |i: int| (self.players[i].player, self.players[i].score),
        )
    }
}

/// Opens a session on `board`, whatever it held before.
///
/// Rejected with `InvalidGameConfig` where the side length and the player
/// count do not go together or a rate is zero.
pub fn start_game_session(
    board: &mut Board,
    game_id: u64,
    board_side_len: u8,
    max_players: u8,
    registration_fee_lamports: u64,
    lamports_per_score: u64,
) -> (result: Result<(), KingTilesError>)
    ensures
        valid_config(board_side_len, max_players, registration_fee_lamports, lamports_per_score)
            ==> result is Ok && final(board)@ == opened(
            game_id,
            board_side_len,
            max_players,
            registration_fee_lamports,
            lamports_per_score,
        ) && final(board)@.well_formed(),
        !valid_config(board_side_len, max_players, registration_fee_lamports, lamports_per_score)
            ==> result == Err::<(), KingTilesError>(KingTilesError::InvalidGameConfig) && *final(board) == *old(board),
{
    if !valid_mode(board_side_len, max_players) {
        return Err(KingTilesError::InvalidGameConfig);
    }
    if !(registration_fee_lamports > 0 && lamports_per_score > 0) {
        return Err(KingTilesError::InvalidGameConfig);
    }
    let king_position = king_starting_position(board_side_len);
    let side: usize = board_side_len as usize;
    let cell_count: usize = side * side;
    let mut cells: Vec<Mark> = Vec::new();
    let mut c: usize = 0;
    while c < cell_count
        invariant
            c <= cell_count,
            cells@.len() == c,
            forall|k: int| 0 <= k < c ==> cells@[k] == Mark::Empty,
        decreases cell_count - c,
    {
        cells.push(Mark::Empty);
        c = c + 1;
    }
    cells[king_position] = Mark::King;
    board.game_id = game_id;
    board.board_side_len = board_side_len;
    board.max_players = max_players;
    board.registration_fee_lamports = registration_fee_lamports;
    board.lamports_per_score = lamports_per_score;
    board.players = Vec::new();
    board.players_count = 0;
    board.is_active = false;
    board.last_move_timestamp = 0;
    board.game_end_timestamp = 0;
    board.powerup_current_position = 0;
    board.bomb_current_position = 0;
    board.board = cells;
    board.king_current_position = king_position as u8;
    proof {
        let target = opened(
            game_id,
            board_side_len,
            max_players,
            registration_fee_lamports,
            lamports_per_score,
        );
        assert(king_start(8) == 27 && king_start(10) == 44 && king_start(12) == 65);
        assert(board@.board =~= target.board);
        assert(board@.players =~= target.players);
    }
    Ok(())
}

/// Gives `payer` the next slot of the session, at time `now`.
///
/// Rejected with `MaxPlayersReached` where every slot is taken, and with
/// `GameAlreadyStarted` where the session is running. The moment the last
/// slot is taken the session starts to run.
pub fn register_player(board: &mut Board, payer: Identity, now: i64) -> (result: Result<
    Vec<GameEvent>,
    KingTilesError,
>)
    requires
        old(board)@.registration_refusal() is None ==> old(board).players_count < old(board).board.len(),
        old(board)@.registration_refusal() is None && old(board).players_count + 1 == old(board).max_players ==> now + GAME_DURATION_SECONDS <= i64::MAX,
    ensures
        match old(board)@.registration_refusal() {
            Some(error) => result == Err::<Vec<GameEvent>, KingTilesError>(error) && *final(board)
                == *old(board),
            None => result is Ok && result->Ok_0@ == old(board)@.registration_events(payer)
                && final(board)@ == old(board)@.registered(payer, now),
        },
        old(board)@.consistent() ==> final(board)@.consistent(),
        old(board)@.well_formed() ==> final(board)@.well_formed(),
{
    if !(board.players_count < board.max_players) {
        return Err(KingTilesError::MaxPlayersReached);
    }
    if board.is_active {
        return Err(KingTilesError::GameAlreadyStarted);
    }
    let players_count = board.players_count;
    let player = Player {
        player: payer,
        score: 0,
        current_position: players_count as i16,
        id: players_count + 1,
        powerup_score: 0,
    };
    board.players.push(player);
    board.board[player.current_position as usize] = Mark::Player(player.id);
    board.players_count = players_count + 1;
    let mut events: Vec<GameEvent> = Vec::new();
    if board.players_count == board.max_players {
        board.is_active = true;
        board.game_end_timestamp = now + GAME_DURATION_SECONDS;
        events.push(GameEvent::GameStarted(GameStartedEvent { game_id: board.game_id }));
    }
    events.push(
        GameEvent::PlayerRegistered(PlayerRegisteredEvent { player: payer, game_id: board.game_id }),
    );
    proof {
        assert(events@ =~= old(board)@.registration_events(payer));
        if old(board)@.consistent() {
            lemma_registered_keeps_consistent(old(board)@, payer, now);
        }
        if old(board)@.well_formed() {
            lemma_registered_keeps_well_formed(old(board)@, payer, now);
        }
    }
    Ok(events)
}

/// Registering a player keeps the session consistent.
pub proof fn lemma_registered_keeps_consistent(s: GameState, payer: Identity, now: i64)
    requires
        s.consistent(),
        s.registration_refusal() is None,
    ensures
        s.registered(payer, now).consistent(),
{
    lemma_consistent_in_bounds(s);
    let r = s.registered(payer, now);
    let slot = s.players_count as int;
    assert forall|i: int|
        #![trigger r.players[i]]
        0 <= i < r.players.len() implies r.player_is_listed(i) by {
        if i < slot {
            assert(r.players[i] == s.players[i]);
        }
    }
    assert forall|c: int|
        #![trigger r.board[c]]
        0 <= c < r.board.len() implies r.cell_is_claimed(c) by {
        if c != slot {
            assert(r.board[c] == s.board[c]);
            if let Mark::Player(id) = s.board[c] {
                assert(r.players[id - 1] == s.players[id - 1]);
            }
        }
    }
}

/// Registering a player keeps the session well formed.
pub proof fn lemma_registered_keeps_well_formed(s: GameState, payer: Identity, now: i64)
    requires
        s.well_formed(),
        s.registration_refusal() is None,
    ensures
        s.registered(payer, now).well_formed(),
{
    lemma_well_formed_in_bounds(s);
    lemma_registered_keeps_consistent(s, payer, now);
    let r = s.registered(payer, now);
    let slot = s.players_count as int;
    assert forall|i: int|
        #![trigger r.players[i]]
        0 <= i < r.players.len() implies {
        &&& r.player_is_placed(i)
        &&& r.players[i].current_position == i
        &&& r.players[i].powerup_score == 0
    } by {
        if i < slot {
            assert(r.players[i] == s.players[i]);
        }
    }
}

/// Player `player_id`, whom the caller `payer` claims to be, takes one step
/// in `direction` at time `now`.
///
/// Rejected, in this order: with `GameNotStarted` where the session is not
/// running; with `GameNotFull` where a slot is free; with `GameEnded` once
/// the session's end has come; with `NotPlayer` where no player has the id,
/// 0 included, or the player is not `payer`.
///
/// A step keeps the session consistent. It keeps it well formed with one
/// exception: a player thrown onto the bomb who comes down on the very cell
/// it was thrown from (see `GameState::chain_is_bombed_back`). The player
/// that took the step then moves onto that cell over it.
pub fn make_move(
    board: &mut Board,
    now: i64,
    player_id: u8,
    payer: Identity,
    direction: Direction,
) -> (result: Result<Vec<GameEvent>, KingTilesError>)
    requires
        old(board)@.consistent(),
    ensures
        match old(board)@.move_refusal(now, player_id, payer) {
            Some(error) => result == Err::<Vec<GameEvent>, KingTilesError>(error) && *final(board)
                == *old(board),
            None => {
                let s = old(board)@;
                let p = player_id - 1;
                let outcome = s.resolve(
                    payer,
                    p,
                    s.step_target(p, direction),
                    direction.offset_spec(s.side()),
                    s.players.len(),
                );
                &&& result is Ok
                &&& final(board)@ == outcome.state
                &&& result->Ok_0@ == outcome.events.push(
                    GameEvent::MoveMade(MoveMadeEvent { player: payer, game_id: s.game_id }),
                )
                &&& old(board)@.well_formed() ==> final(board)@.well_formed()
                    == !s.chain_is_bombed_back(
                    s.step_target(p, direction),
                    direction.offset_spec(s.side()),
                    s.players.len(),
                )
            },
        },
        final(board)@.consistent(),
        final(board)@.in_bounds(),
        final(board).players.len() == old(board).players.len(),
        final(board).board.len() == old(board).board.len(),
{
    proof {
        lemma_consistent_in_bounds(board@);
    }
    if !board.is_active {
        return Err(KingTilesError::GameNotStarted);
    }
    if board.players_count != board.max_players {
        return Err(KingTilesError::GameNotFull);
    }
    if !(now < board.game_end_timestamp) {
        return Err(KingTilesError::GameEnded);
    }
    if player_id == 0 {
        return Err(KingTilesError::NotPlayer);
    }
    let player_index = player_id_to_index(player_id);
    if !(player_index < board.players_count as usize) {
        return Err(KingTilesError::NotPlayer);
    }
    if board.players[player_index].id != player_id {
        return Err(KingTilesError::NotPlayer);
    }
    if !board.players[player_index].player.same_as(&payer) {
        return Err(KingTilesError::NotPlayer);
    }
    let move_position = direction.offset(board.board_side_len);
    let active_cells = board.active_board_cells();
    let current_position = board.players[player_index].current_position;
    let new_position = advance(current_position, move_position, active_cells);
    proof {
        let s = board@;
        lemma_chain_ends(s, player_index as int, move_position as int);
        if s.well_formed() {
            if s.chain_is_bombed_back(
                new_position as int,
                move_position as int,
                s.players.len(),
            ) {
                lemma_bombed_back_breaks_well_formed(
                    s,
                    payer,
                    player_index as int,
                    move_position as int,
                );
            } else {
                lemma_step_keeps_well_formed(
                    s,
                    payer,
                    player_index as int,
                    move_position as int,
                );
            }
        }
    }
    let game_id = board.game_id;
    let mut events = check_board_for_new_position(
        payer,
        board,
        player_index,
        new_position,
        move_position,
    );
    proof {
        lemma_consistent_in_bounds(board@);
    }
    events.push(GameEvent::MoveMade(MoveMadeEvent { player: payer, game_id }));
    Ok(events)
}

/// Player `player_id` spends its charge on a push in `direction`.
///
/// Rejected with `NotPlayer` where no player has the id, 0 included, and
/// with `NoPowerup` where the player holds no charge.
pub fn use_power(board: &mut Board, player_id: u8, direction: Direction) -> (result: Result<
    Vec<GameEvent>,
    KingTilesError,
>)
    requires
        old(board)@.consistent(),
    ensures
        match old(board)@.power_refusal(player_id) {
            Some(error) => result == Err::<Vec<GameEvent>, KingTilesError>(error) && *final(board)
                == *old(board),
            None => {
                let s = old(board)@;
                let outcome = s.power_used(player_id - 1, direction.offset_spec(s.side()));
                &&& result is Ok
                &&& final(board)@ == outcome.state
                &&& result->Ok_0@ == outcome.events.push(
                    GameEvent::PowerUsed(PowerUsedEvent { player: player_id, game_id: s.game_id }),
                )
            },
        },
        final(board)@.consistent(),
        old(board)@.well_formed() ==> final(board)@.well_formed(),
{
    if player_id == 0 {
        return Err(KingTilesError::NotPlayer);
    }
    let player_index = player_id_to_index(player_id);
    if !(player_index < board.players_count as usize) {
        return Err(KingTilesError::NotPlayer);
    }
    if !(board.players[player_index].powerup_score > 0) {
        return Err(KingTilesError::NoPowerup);
    }
    let power_use_direction = direction.offset(board.board_side_len);
    proof {
        if board@.well_formed() {
            lemma_power_keeps_well_formed(board@, player_index as int, power_use_direction as int);
        }
    }
    let game_id = board.game_id;
    let mut events = use_power_with_direction(board, player_index, power_use_direction);
    events.push(GameEvent::PowerUsed(PowerUsedEvent { player: player_id, game_id }));
    Ok(events)
}

/// The cell drawn for a tile from 32 random bytes, on a board of `cells`
/// cells.
pub open spec fn drawn_cell(randomness: Seq<u8>, cells: int) -> int {
    sampled_in_range(randomness, 0, (cells - 1) as u8) as int
}

/// Draws a cell of the board from `randomness`.
fn draw_cell(board: &Board, randomness: &[u8; 32]) -> (cell: usize)
    requires
        board.board.len() == board@.side() * board@.side(),
        0 < board.board.len() <= 256,
    ensures
        cell == drawn_cell(randomness@, board@.cells()),
        cell < board.board.len(),
{
    let active_cells = board.active_board_cells();
    random_in_range(randomness, 0, (active_cells - 1) as u8) as usize
}

/// Puts the bomb on the first empty cell at or after the cell drawn from
/// `randomness`. The cell drawn is a cell of the board.
pub fn callback_bomb_drop(board: &mut Board, randomness: [u8; 32]) -> (event: BombDropEvent)
    requires
        old(board)@.has_room_for(SpecialTile::Bomb),
    ensures
        0 <= drawn_cell(randomness@, old(board)@.cells()) < old(board)@.cells(),
        final(board)@ == old(board)@.respawned(
            SpecialTile::Bomb,
            drawn_cell(randomness@, old(board)@.cells()),
        ),
        is_first_empty_from(
            old(board)@.lifted(SpecialTile::Bomb),
            drawn_cell(randomness@, old(board)@.cells()),
            final(board).bomb_current_position as int,
        ),
        final(board)@.board == old(board)@.lifted(SpecialTile::Bomb).update(
            final(board).bomb_current_position as int,
            SpecialTile::Bomb.mark_spec(),
        ),
        final(board)@.players == old(board)@.players,
        event == (BombDropEvent {
            game_id: old(board).game_id,
            bomb_drop: final(board).bomb_current_position,
        }),
        old(board)@.consistent() ==> final(board)@.consistent(),
        old(board)@.well_formed() ==> final(board)@.well_formed(),
{
    let cell_index = draw_cell(board, &randomness);
    let placed = spawn_special_tile(board, SpecialTile::Bomb, cell_index);
    BombDropEvent { game_id: board.game_id, bomb_drop: placed }
}

/// Puts the king on the first empty cell at or after the cell drawn from
/// `randomness`. The cell drawn is a cell of the board.
pub fn callback_king_move(board: &mut Board, randomness: [u8; 32]) -> (event: KingMoveEvent)
    requires
        old(board)@.has_room_for(SpecialTile::King),
    ensures
        0 <= drawn_cell(randomness@, old(board)@.cells()) < old(board)@.cells(),
        final(board)@ == old(board)@.respawned(
            SpecialTile::King,
            drawn_cell(randomness@, old(board)@.cells()),
        ),
        is_first_empty_from(
            old(board)@.lifted(SpecialTile::King),
            drawn_cell(randomness@, old(board)@.cells()),
            final(board).king_current_position as int,
        ),
        final(board)@.board == old(board)@.lifted(SpecialTile::King).update(
            final(board).king_current_position as int,
            SpecialTile::King.mark_spec(),
        ),
        final(board)@.players == old(board)@.players,
        event == (KingMoveEvent {
            game_id: old(board).game_id,
            king_move: final(board).king_current_position,
        }),
        old(board)@.consistent() ==> final(board)@.consistent(),
        old(board)@.well_formed() ==> final(board)@.well_formed(),
{
    let cell_index = draw_cell(board, &randomness);
    let placed = spawn_special_tile(board, SpecialTile::King, cell_index);
    KingMoveEvent { game_id: board.game_id, king_move: placed }
}

/// Puts the powerup on the first empty cell at or after the cell drawn from
/// `randomness`. The cell drawn is a cell of the board.
pub fn callback_spawn_powerup(board: &mut Board, randomness: [u8; 32]) -> (event:
    PowerupMoveEvent)
    requires
        old(board)@.has_room_for(SpecialTile::Powerup),
    ensures
        0 <= drawn_cell(randomness@, old(board)@.cells()) < old(board)@.cells(),
        final(board)@ == old(board)@.respawned(
            SpecialTile::Powerup,
            drawn_cell(randomness@, old(board)@.cells()),
        ),
        is_first_empty_from(
            old(board)@.lifted(SpecialTile::Powerup),
            drawn_cell(randomness@, old(board)@.cells()),
            final(board).powerup_current_position as int,
        ),
        final(board)@.board == old(board)@.lifted(SpecialTile::Powerup).update(
            final(board).powerup_current_position as int,
            SpecialTile::Powerup.mark_spec(),
        ),
        final(board)@.players == old(board)@.players,
        event == (PowerupMoveEvent {
            game_id: old(board).game_id,
            powerup_move: final(board).powerup_current_position,
        }),
        old(board)@.consistent() ==> final(board)@.consistent(),
        old(board)@.well_formed() ==> final(board)@.well_formed(),
{
    let cell_index = draw_cell(board, &randomness);
    let placed = spawn_special_tile(board, SpecialTile::Powerup, cell_index);
    PowerupMoveEvent { game_id: board.game_id, powerup_move: placed }
}

/// Puts the king on the cell `position` by hand.
///
/// Rejected with `GameNotStarted` where the session is not running, and
/// with `InvalidMove` where the cell is off the board or not empty.
pub fn set_king_position(board: &mut Board, position: u8) -> (result: Result<
    KingMoveEvent,
    KingTilesError,
>)
    requires
        old(board).board.len() == old(board)@.side() * old(board)@.side(),
        old(board).king_current_position < old(board).board.len(),
    ensures
        match old(board)@.king_refusal(position) {
            Some(error) => result == Err::<KingMoveEvent, KingTilesError>(error) && *final(board)
                == *old(board),
            None => result == Ok::<KingMoveEvent, KingTilesError>(
                KingMoveEvent { game_id: old(board).game_id, king_move: position },
            ) && final(board)@ == old(board)@.king_set(position),
        },
        old(board)@.consistent() ==> final(board)@.consistent(),
        old(board)@.well_formed() ==> final(board)@.well_formed(),
{
    if !board.is_active {
        return Err(KingTilesError::GameNotStarted);
    }
    if !((position as usize) < board.active_board_cells()) {
        return Err(KingTilesError::InvalidMove);
    }
    if board.board[position as usize] != Mark::Empty {
        return Err(KingTilesError::InvalidMove);
    }
    let old_pos = board.king_current_position as usize;
    if board.board[old_pos] == Mark::King {
        board.board[old_pos] = Mark::Empty;
    }
    board.board[position as usize] = Mark::King;
    board.king_current_position = position;
    proof {
        if old(board)@.consistent() {
            lemma_king_set_keeps_consistent(old(board)@, position);
        }
        if old(board)@.well_formed() {
            lemma_king_set_keeps_well_formed(old(board)@, position);
        }
    }
    Ok(KingMoveEvent { game_id: board.game_id, king_move: position })
}

/// Putting the king on an empty cell keeps the session consistent.
pub proof fn lemma_king_set_keeps_consistent(s: GameState, position: u8)
    requires
        s.consistent(),
        s.king_refusal(position) is None,
    ensures
        s.king_set(position).consistent(),
{
    let r = s.king_set(position);
    let lifted = s.lifted(SpecialTile::King);
    let site = s.king_current_position as int;
    assert forall|i: int|
        #![trigger r.players[i]]
        0 <= i < r.players.len() implies r.player_is_listed(i) by {
        assert(r.players[i] == s.players[i]);
    }
    assert forall|c: int|
        #![trigger r.board[c]]
        0 <= c < r.board.len() implies r.cell_is_claimed(c) by {
        if c != position {
            assert(r.board[c] == lifted[c]);
            if c != site {
                assert(lifted[c] == s.board[c]);
            }
        }
    }
}

/// Putting the king on an empty cell keeps the session well formed.
pub proof fn lemma_king_set_keeps_well_formed(s: GameState, position: u8)
    requires
        s.well_formed(),
        s.king_refusal(position) is None,
    ensures
        s.king_set(position).well_formed(),
{
    lemma_king_set_keeps_consistent(s, position);
    let r = s.king_set(position);
    let lifted = s.lifted(SpecialTile::King);
    assert forall|i: int|
        #![trigger r.players[i]]
        0 <= i < r.players.len() implies r.player_is_placed(i) by {
        let at = s.players[i].current_position as int;
        assert(s.board[at] == Mark::Player(s.players[i].id));
        assert(lifted[at] == s.board[at]);
    }
}

/// Gives one point to the player standing on the cell of the king's index,
/// if one stands there.
pub fn update_player_score(board: &mut Board)
    requires
        old(board).king_current_position < old(board).board.len(),
        old(board)@.scorer() matches Some(scorer) ==> scorer < old(board).players.len() && old(board).players[scorer].score < u64::MAX,
    ensures
        final(board)@ == old(board)@.ticked(),
        old(board)@.consistent() ==> final(board)@.consistent(),
        old(board)@.well_formed() ==> final(board)@.well_formed(),
{
    let king_current_position = board.king_current_position;
    match board.board[king_current_position as usize] {
        Mark::Player(id) => {
            if 1 <= id && id <= board.players_count {
                let player_index = player_id_to_index(id);
                board.players[player_index].score = board.players[player_index].score + 1;
                proof {
                    assert(board@.players =~= old(board)@.ticked().players);
                }
            }
        },
        _ => {},
    }
    proof {
        if old(board)@.consistent() {
            lemma_ticked_keeps_consistent(old(board)@);
        }
        if old(board)@.well_formed() {
            lemma_ticked_keeps_well_formed(old(board)@);
        }
    }
}

/// A score tick keeps the session consistent.
pub proof fn lemma_ticked_keeps_consistent(s: GameState)
    requires
        s.consistent(),
    ensures
        s.ticked().consistent(),
{
    let r = s.ticked();
    assert forall|i: int|
        #![trigger r.players[i]]
        0 <= i < r.players.len() implies r.player_is_listed(i) by {
        assert(r.players[i].id == s.players[i].id);
        assert(r.players[i].current_position == s.players[i].current_position);
    }
    assert forall|c: int|
        #![trigger r.board[c]]
        0 <= c < r.board.len() implies r.cell_is_claimed(c) by {
        if let Mark::Player(id) = s.board[c] {
            assert(r.players[id - 1].current_position == s.players[id - 1].current_position);
        }
    }
}

/// A score tick keeps the session well formed.
pub proof fn lemma_ticked_keeps_well_formed(s: GameState)
    requires
        s.well_formed(),
    ensures
        s.ticked().well_formed(),
{
    lemma_ticked_keeps_consistent(s);
    let r = s.ticked();
    assert forall|i: int|
        #![trigger r.players[i]]
        0 <= i < r.players.len() implies {
        &&& r.player_is_placed(i)
        &&& r.players[i].current_position == s.players[i].current_position
        &&& r.players[i].powerup_score == s.players[i].powerup_score
    } by {
        assert(r.players[i].id == s.players[i].id);
        assert(r.players[i].current_position == s.players[i].current_position);
    }
}

/// Closes the session at time `now` and hands out each registered player's
/// identity and score, in registration order, for whoever pays the rewards.
///
/// Rejected with `GameNotOver` before the session's end.
pub fn distribute_rewards(board: &mut Board, now: i64) -> (result: Result<
    Vec<(Identity, u64)>,
    KingTilesError,
>)
    requires
        old(board).players_count <= old(board).players.len(),
    ensures
        now < old(board).game_end_timestamp ==> result == Err::<
            Vec<(Identity, u64)>,
            KingTilesError,
        >(KingTilesError::GameNotOver) && *final(board) == *old(board),
        now >= old(board).game_end_timestamp ==> result is Ok && result->Ok_0@ == old(board)@.final_scores() && final(board)@ == (GameState { is_active: false, ..old(board)@ }),
        old(board)@.consistent() ==> final(board)@.consistent(),
        old(board)@.well_formed() ==> final(board)@.well_formed(),
{
    if !(now >= board.game_end_timestamp) {
        return Err(KingTilesError::GameNotOver);
    }
    board.is_active = false;
    let mut scores: Vec<(Identity, u64)> = Vec::new();
    let mut i: usize = 0;
    while i < board.players_count as usize
        invariant
            board@ == (GameState { is_active: false, ..old(board)@ }),
            board.players_count <= board.players.len(),
            i <= board.players_count,
            scores@.len() == i,
            forall|k: int|
                0 <= k < i ==> scores@[k] == (
                    board@.players[k].player,
                    board@.players[k].score,
                ),
        decreases board.players_count - i,
    {
        let player = &board.players[i];
        scores.push((player.player, player.score));
        i = i + 1;
    }
    assert(scores@ =~= old(board)@.final_scores());
    Ok(scores)
}

} // verus!
