//! Resolving a step: what becomes of the player that takes it, of the tile
//! or player it lands on, and of everyone displaced in turn.
use crate::constants::POWERUP_SCORE;
use crate::events::{GameEvent, PlayerScoredBombEvent, PlayerScoredEvent, PlayerScoredPowerupEvent};
use crate::geometry::{advance, toroidal_index};
use crate::placement::{first_empty_from, probe};
use crate::state::{Board, GameState, Identity, Mark, Player};
use vstd::prelude::*;

verus! {

/// A state together with the reports of how it came about.
pub struct Resolution {
    pub state: GameState,
    pub events: Seq<GameEvent>,
}

/// Whether an offset is that of a power push: as many steps in one
/// direction as a charge is worth.
pub open spec fn is_power_offset(offset: int, side: int) -> bool {
    let reach = POWERUP_SCORE as int;
    offset == reach || offset == -reach || offset == reach * side || offset == -reach * side
}

/// Whether an offset is that of a basic step: one cell, or one row.
pub open spec fn is_basic_offset(offset: int, side: int) -> bool {
    offset == 1 || offset == -1 || offset == side || offset == -side
}

/// The one step that points the way of `offset`: a row where the offset
/// spans a row or more, a cell otherwise, with the sign of the offset.
pub open spec fn single_step(offset: int, side: int) -> int {
    if offset >= side || offset <= -side {
        if offset > 0 {
            side
        } else {
            -side
        }
    } else {
        if offset > 0 {
            1
        } else {
            -1
        }
    }
}

impl GameState {
    /// Whether player `p` can be put on cell `dest`: both exist, and the
    /// player stands on a cell of the board.
    pub open spec fn can_place(self, p: int, dest: int) -> bool {
        &&& 0 <= p < self.players.len()
        &&& 0 <= dest < self.board.len() <= i16::MAX
        &&& 0 <= self.players[p].current_position < self.board.len()
    }

    /// Player `p` moves onto cell `dest`: the cell takes the player's mark,
    /// the cell the player stood on becomes empty, and the player's position
    /// follows.
    pub open spec fn relocate(self, p: int, dest: int) -> GameState {
        let mover = self.players[p];
        GameState {
            board: self.board.update(dest, Mark::Player(mover.id)).update(
                mover.current_position as int,
                Mark::Empty,
            ),
            players: self.players.update(p, Player { current_position: dest as i16, ..mover }),
            ..self
        }
    }

    /// Player `p` is given one pending power push.
    pub open spec fn charged(self, p: int) -> GameState {
        GameState {
            players: self.players.update(
                p,
                Player { powerup_score: POWERUP_SCORE, ..self.players[p] },
            ),
            ..self
        }
    }

    /// Player `p` loses its pending power push, if it had one.
    pub open spec fn discharged(self, p: int) -> GameState {
        GameState {
            players: self.players.update(p, Player { powerup_score: 0, ..self.players[p] }),
            ..self
        }
    }

    /// The cells once player `p` has stepped on the bomb at `dest`: its own
    /// cell and the bomb's are empty.
    pub open spec fn cleared_by_bomb(self, p: int, dest: int) -> Seq<Mark> {
        self.board.update(self.players[p].current_position as int, Mark::Empty).update(
            dest,
            Mark::Empty,
        )
    }

    /// Player `p` steps on the bomb at `dest`: its cell and the bomb's
    /// become empty, and the player goes to its home slot, the cell whose
    /// index is the player's own, or to the first empty cell after it.
    pub open spec fn bombed(self, p: int, dest: int) -> GameState {
        let mover = self.players[p];
        let cleared = self.cleared_by_bomb(p, dest);
        let landing = first_empty_from(cleared, p);
        GameState {
            board: cleared.update(landing, Mark::Player(mover.id)),
            players: self.players.update(p, Player { current_position: landing as i16, ..mover }),
            ..self
        }
    }

    /// Player `p`, known outside as `key`, lands on cell `dest`, taken to
    /// hold no player. On an empty cell the player moves in. On the king it moves
    /// in and is reported to have scored. On the powerup it moves in, takes
    /// the charge, and is reported. On the bomb it is sent home and
    /// reported.
    pub open spec fn landed(self, key: Identity, p: int, dest: int) -> Resolution {
        match self.board[dest] {
            Mark::King => Resolution {
                state: self.relocate(p, dest),
                events: seq![
                    GameEvent::PlayerScored(
                        PlayerScoredEvent { player: key, game_id: self.game_id },
                    ),
                ],
            },
            Mark::Bomb => Resolution {
                state: self.bombed(p, dest),
                events: seq![
                    GameEvent::PlayerScoredBomb(
                        PlayerScoredBombEvent {
                            player: self.players[p].player,
                            game_id: self.game_id,
                        },
                    ),
                ],
            },
            Mark::Powerup => Resolution {
                state: self.relocate(p, dest).charged(p),
                events: seq![
                    GameEvent::PlayerScoredPowerup(
                        PlayerScoredPowerupEvent {
                            player: self.players[p].player,
                            game_id: self.game_id,
                        },
                    ),
                ],
            },
            _ => Resolution { state: self.relocate(p, dest), events: Seq::empty() },
        }
    }

    /// Player `p`, known outside as `key`, attempts the cell `dest` by
    /// `offset`. A cell without a player is landed on. A cell with a player
    /// is a collision. `depth` bounds how many players may be displaced one
    /// after the other; with the number of players for it, the bound is
    /// never met by a step on a consistent state (see `lemma_chain_ends`).
    pub open spec fn resolve(
        self,
        key: Identity,
        p: int,
        dest: int,
        offset: int,
        depth: nat,
    ) -> Resolution
        decreases depth, 1nat,
    {
        if self.occupied(dest) {
            self.collide(p, dest, offset, depth)
        } else {
            self.landed(key, p, dest)
        }
    }

    /// Player `p` attempts the cell `dest`, on which another player stands.
    ///
    /// By a basic step, the other player is thrown two steps on and what
    /// happens to it there is resolved in full, whoever it meets; then `p`
    /// moves in. With `depth` used up, nothing happens. By a longer offset,
    /// the other player steps aside by one step if the cell there is empty,
    /// and `p` moves in; if that cell is not empty, nothing happens at all.
    pub open spec fn collide(self, p: int, dest: int, offset: int, depth: nat) -> Resolution
        decreases depth, 0nat,
    {
        let other = self.occupant(dest);
        let from = self.players[other].current_position as int;
        if is_basic_offset(offset, self.side()) {
            if depth == 0 {
                Resolution { state: self, events: Seq::empty() }
            } else {
                let thrown = self.resolve(
                    self.players[other].player,
                    other,
                    toroidal_index(from, 2 * offset, self.cells()),
                    offset,
                    (depth - 1) as nat,
                );
                Resolution { state: thrown.state.relocate(p, dest), events: thrown.events }
            }
        } else {
            let aside = toroidal_index(from, single_step(offset, self.side()), self.cells());
            if self.board[aside] == Mark::Empty {
                Resolution {
                    state: self.relocate(other, aside).relocate(p, dest),
                    events: Seq::empty(),
                }
            } else {
                Resolution { state: self, events: Seq::empty() }
            }
        }
    }

    /// The cell to which a basic step by `offset` throws the player found
    /// on `cell`: two steps on.
    pub open spec fn thrown_to(self, cell: int, offset: int) -> int {
        toroidal_index(cell, 2 * offset, self.cells())
    }

    /// Whether the chain of players that a basic step into `dest` displaces
    /// comes to an end within `depth` players.
    pub open spec fn chain_ends(self, dest: int, offset: int, depth: nat) -> bool
        decreases depth,
    {
        !self.occupied(dest) || (depth > 0 && self.chain_ends(
            self.thrown_to(dest, offset),
            offset,
            (depth - 1) as nat,
        ))
    }
}

/// Moving the players of `pending` onto their cells, last entry first, each
/// cell taken to be empty when its turn comes.
pub open spec fn unwind(r: Resolution, pending: Seq<(usize, usize)>) -> Resolution
    decreases pending.len(),
{
    if pending.len() == 0 {
        r
    } else {
        unwind(
            Resolution {
                state: r.state.relocate(pending.last().0 as int, pending.last().1 as int),
                events: r.events,
            },
            pending.drop_last(),
        )
    }
}

/// Putting a player on a cell of the board leaves every index in bounds.
pub proof fn lemma_relocate_in_bounds(s: GameState, p: int, dest: int)
    requires
        s.in_bounds(),
        s.can_place(p, dest),
    ensures
        s.relocate(p, dest).in_bounds(),
        s.relocate(p, dest).players.len() == s.players.len(),
        s.relocate(p, dest).board.len() == s.board.len(),
        s.relocate(p, dest).board_side_len == s.board_side_len,
{
    let r = s.relocate(p, dest);
    assert forall|i: int| 0 <= i < r.players.len() implies 0 <= (
    #[trigger] r.players[i]).current_position < r.board.len() by {
        if i != p {
            assert(r.players[i] == s.players[i]);
        }
    }
}

/// Landing a player on a cell of the board leaves every index in bounds.
pub proof fn lemma_landed_in_bounds(s: GameState, key: Identity, p: int, dest: int)
    requires
        s.in_bounds(),
        s.can_place(p, dest),
        p < s.board.len(),
    ensures
        s.landed(key, p, dest).state.in_bounds(),
        s.landed(key, p, dest).state.players.len() == s.players.len(),
        s.landed(key, p, dest).state.board.len() == s.board.len(),
        s.landed(key, p, dest).state.board_side_len == s.board_side_len,
{
    let r = s.landed(key, p, dest).state;
    lemma_relocate_in_bounds(s, p, dest);
    if s.board[dest] == Mark::Bomb {
        let cleared = s.cleared_by_bomb(p, dest);
        assert(cleared[dest] == Mark::Empty);
        crate::placement::lemma_first_empty_from(cleared, p);
    }
    assert forall|i: int| 0 <= i < r.players.len() implies 0 <= (
    #[trigger] r.players[i]).current_position < r.board.len() by {
        if i != p {
            assert(r.players[i] == s.players[i]);
        }
    }
}

/// The index, in `players`, of the player with the given id.
pub fn player_id_to_index(player_id: u8) -> (index: usize)
    requires
        player_id >= 1,
    ensures
        index == player_id - 1,
{
    (player_id - 1) as usize
}

/// Whether a player stands on cell `i`.
pub fn check_if_player_exists(i: i16, board: &mut Board) -> (found: bool)
    requires
        0 <= i < old(board).board.len(),
    ensures
        found == old(board)@.occupied(i as int),
        *final(board) == *old(board),
{
    board.board[i as usize].is_player()
}

/// Moves player `player_index` onto the cell `new_position`, taken to be
/// empty.
pub fn new_position_is_empty(board: &mut Board, player_index: usize, new_position: usize)
    requires
        old(board)@.can_place(player_index as int, new_position as int),
    ensures
        final(board)@ == old(board)@.relocate(player_index as int, new_position as int),
{
    let current_position = board.players[player_index].current_position;
    board.board[new_position] = Mark::Player(board.players[player_index].id);
    board.board[current_position as usize] = Mark::Empty;
    board.players[player_index].current_position = new_position as i16;
    assert(board@.players =~= old(board)@.relocate(
        player_index as int,
        new_position as int,
    ).players);
}

/// Moves player `player_index` onto the king's cell `new_position`. What the
/// landing is worth is for the caller to report.
pub fn new_position_is_king(board: &mut Board, player_index: usize, new_position: usize)
    requires
        old(board)@.can_place(player_index as int, new_position as int),
    ensures
        final(board)@ == old(board)@.relocate(player_index as int, new_position as int),
{
    board.board[new_position] = Mark::Player(board.players[player_index].id);
    let current_position = board.players[player_index].current_position;
    board.board[current_position as usize] = Mark::Empty;
    board.players[player_index].current_position = new_position as i16;
    assert(board@.players =~= old(board)@.relocate(
        player_index as int,
        new_position as int,
    ).players);
}

/// Moves player `player_index` onto the powerup's cell `new_position` and
/// gives it the charge.
pub fn new_position_is_powerup(board: &mut Board, player_index: usize, new_position: usize) -> (event:
    PlayerScoredPowerupEvent)
    requires
        old(board)@.can_place(player_index as int, new_position as int),
    ensures
        final(board)@ == old(board)@.relocate(player_index as int, new_position as int).charged(
            player_index as int,
        ),
        event == (PlayerScoredPowerupEvent {
            player: old(board).players[player_index as int].player,
            game_id: old(board).game_id,
        }),
{
    let current_position = board.players[player_index].current_position;
    board.board[new_position] = Mark::Player(board.players[player_index].id);
    let event = PlayerScoredPowerupEvent {
        player: board.players[player_index].player,
        game_id: board.game_id,
    };
    board.board[current_position as usize] = Mark::Empty;
    board.players[player_index].current_position = new_position as i16;
    board.players[player_index].powerup_score = POWERUP_SCORE;
    assert(board@.players =~= old(board)@.relocate(
        player_index as int,
        new_position as int,
    ).charged(player_index as int).players);
    event
}

/// Sends player `player_index`, who stepped on the bomb at `new_position`,
/// back to its home slot or to the first empty cell after it.
pub fn new_position_is_bomb(board: &mut Board, player_index: usize, new_position: usize) -> (event:
    PlayerScoredBombEvent)
    requires
        old(board)@.can_place(player_index as int, new_position as int),
        player_index < old(board).board.len(),
    ensures
        final(board)@ == old(board)@.bombed(player_index as int, new_position as int),
        final(board).players.len() == old(board).players.len(),
        final(board).board.len() == old(board).board.len(),
        event == (PlayerScoredBombEvent {
            player: old(board).players[player_index as int].player,
            game_id: old(board).game_id,
        }),
{
    let event = PlayerScoredBombEvent {
        player: board.players[player_index].player,
        game_id: board.game_id,
    };
    let player_id = board.players[player_index].id;
    let current_position = board.players[player_index].current_position as usize;
    board.board[current_position] = Mark::Empty;
    board.board[new_position] = Mark::Empty;
    assert(board.board@[new_position as int] == Mark::Empty);
    let landing = probe(&board.board, player_index);
    board.board[landing] = Mark::Player(player_id);
    board.players[player_index].current_position = landing as i16;
    assert(board@.players =~= old(board)@.bombed(
        player_index as int,
        new_position as int,
    ).players);
    event
}

/// Lands player `player_index`, known outside as `payer_key`, on the cell
/// `new_position`, taken to hold no player: it moves in, or, on the bomb, is
/// sent home. A king, bomb or powerup landed on is reported.
pub fn land(payer_key: Identity, board: &mut Board, player_index: usize, new_position: usize) -> (events:
    Vec<GameEvent>)
    requires
        old(board)@.can_place(player_index as int, new_position as int),
        player_index < old(board).board.len(),
    ensures
        final(board)@ == old(board)@.landed(
            payer_key,
            player_index as int,
            new_position as int,
        ).state,
        events@ == old(board)@.landed(payer_key, player_index as int, new_position as int).events,
        final(board).players.len() == old(board).players.len(),
        final(board).board.len() == old(board).board.len(),
{
    let mut events: Vec<GameEvent> = Vec::new();
    match board.board[new_position] {
        Mark::King => {
            new_position_is_king(board, player_index, new_position);
            events.push(
                GameEvent::PlayerScored(
                    PlayerScoredEvent { player: payer_key, game_id: board.game_id },
                ),
            );
        },
        Mark::Bomb => {
            let event = new_position_is_bomb(board, player_index, new_position);
            events.push(GameEvent::PlayerScoredBomb(event));
        },
        Mark::Powerup => {
            let event = new_position_is_powerup(board, player_index, new_position);
            events.push(GameEvent::PlayerScoredPowerup(event));
        },
        _ => {
            new_position_is_empty(board, player_index, new_position);
        },
    }
    assert(events@ =~= old(board)@.landed(
        payer_key,
        player_index as int,
        new_position as int,
    ).events);
    events
}

/// Resolves the attempt of player `player_index` on the cell
/// `new_position`, on which another player stands.
///
/// By a basic step the players in the way are thrown on, each two steps
/// further, until one of them lands on a cell without a player; then each
/// moves onto the cell the next one left, the last of them being
/// `player_index`. By a power push the other player steps aside by one step
/// if it can, and the push is void if it cannot.
///
/// A chain that never ends cannot be resolved, so the chain must end within
/// the number of players. It does for every step a player takes from its
/// own cell (`lemma_chain_ends`), and for every cell whatever as long as
/// some player stands outside the chain
/// (`lemma_chain_ends_past_a_bystander`).
pub fn new_position_is_occupied_by_player(
    board: &mut Board,
    player_index: usize,
    move_position: i16,
    new_position: usize,
) -> (events: Vec<GameEvent>)
    requires
        old(board)@.consistent(),
        player_index < old(board).players.len(),
        new_position < old(board).board.len(),
        old(board)@.occupied(new_position as int),
        is_basic_offset(move_position as int, old(board)@.side()) ==> old(board)@.chain_ends(
            new_position as int,
            move_position as int,
            old(board)@.players.len(),
        ),
    ensures
        final(board)@.consistent(),
        final(board)@ == old(board)@.collide(
            player_index as int,
            new_position as int,
            move_position as int,
            old(board)@.players.len(),
        ).state,
        events@ == old(board)@.collide(
            player_index as int,
            new_position as int,
            move_position as int,
            old(board)@.players.len(),
        ).events,
        final(board).players.len() == old(board).players.len(),
        final(board).board.len() == old(board).board.len(),
{
    let ghost s0 = board@;
    let ghost depth = s0.players.len();
    let ghost goal = s0.collide(
        player_index as int,
        new_position as int,
        move_position as int,
        depth,
    );
    proof {
        crate::state::lemma_consistent_in_bounds(s0);
        crate::preservation::lemma_resolution_keeps_consistent(
            s0,
            s0.players[player_index as int].player,
            player_index as int,
            new_position as int,
            move_position as int,
            depth,
        );
    }
    let board_cells = board.active_board_cells();
    let board_side_len: i16 = board.board_side_len as i16;
    let collision_player_index = player_id_to_index(board.board[new_position].player_id());
    let collision_player_current_position = board.players[collision_player_index].current_position;

    if move_position == 1 || move_position == -1 || move_position == board_side_len
        || move_position == -board_side_len {
        let twice: i16 = move_position + move_position;
        let mut pending: Vec<(usize, usize)> = Vec::new();
        pending.push((player_index, new_position));
        let mut mover: usize = collision_player_index;
        let mut target: usize = advance(collision_player_current_position, twice, board_cells);
        proof {
            let thrown = s0.resolve(
                s0.players[mover as int].player,
                mover as int,
                target as int,
                move_position as int,
                (depth - 1) as nat,
            );
            let moved = Resolution {
                state: thrown.state.relocate(player_index as int, new_position as int),
                events: thrown.events,
            };
            assert(pending@.last() == (player_index, new_position));
            assert(pending@.drop_last() =~= Seq::<(usize, usize)>::empty());
            assert(unwind(moved, pending@.drop_last()) == moved);
            assert(goal == moved);
        }
        while board.board[target].is_player()
            invariant
                board@ == s0,
                s0.consistent(),
                s0.in_bounds(),
                depth == s0.players.len(),
                board_cells == s0.cells(),
                is_basic_offset(move_position as int, s0.side()),
                twice == 2 * move_position,
                mover < s0.players.len(),
                target < s0.board.len(),
                1 <= pending@.len() <= depth,
                s0.chain_ends(target as int, move_position as int, (depth - pending@.len()) as nat),
                goal == unwind(
                    s0.resolve(
                        s0.players[mover as int].player,
                        mover as int,
                        target as int,
                        move_position as int,
                        (depth - pending@.len()) as nat,
                    ),
                    pending@,
                ),
                forall|i: int|
                    0 <= i < pending@.len() ==> (#[trigger] pending@[i]).0 < s0.players.len()
                        && pending@[i].1 < s0.board.len(),
            decreases depth - pending@.len(),
        {
            let next_mover = player_id_to_index(board.board[target].player_id());
            let ghost before = pending@;
            pending.push((mover, target));
            proof {
                assert(pending@.drop_last() =~= before);
                crate::state::lemma_consistent_in_bounds(s0);
            }
            let from = board.players[next_mover].current_position;
            mover = next_mover;
            target = advance(from, twice, board_cells);
        }
        let mover_key = board.players[mover].player;
        let events = land(mover_key, board, mover, target);
        proof {
            lemma_landed_in_bounds(s0, mover_key, mover as int, target as int);
        }
        while pending.len() > 0
            invariant
                board@.in_bounds(),
                board@.players.len() == s0.players.len(),
                board@.board.len() == s0.board.len(),
                goal == unwind(Resolution { state: board@, events: events@ }, pending@),
                forall|i: int|
                    0 <= i < pending@.len() ==> (#[trigger] pending@[i]).0 < s0.players.len()
                        && pending@[i].1 < s0.board.len(),
            decreases pending@.len(),
        {
            let ghost before = pending@;
            let ghost now = board@;
            let (who, cell) = pending.pop().unwrap();
            proof {
                assert(before.last() == (who, cell));
                assert(pending@ =~= before.drop_last());
                lemma_relocate_in_bounds(now, who as int, cell as int);
            }
            new_position_is_empty(board, who, cell);
        }
        events
    } else {
        let single_step: i16 = if move_position >= board_side_len || move_position
            <= -board_side_len {
            if move_position > 0 {
                board_side_len
            } else {
                -board_side_len
            }
        } else {
            if move_position > 0 {
                1
            } else {
                -1
            }
        };
        let new_pos = advance(collision_player_current_position, single_step, board_cells);
        match board.board[new_pos] {
            Mark::Empty => {
                proof {
                    lemma_relocate_in_bounds(s0, collision_player_index as int, new_pos as int);
                }
                new_position_is_empty(board, collision_player_index, new_pos);
                new_position_is_empty(board, player_index, new_position);
            },
            _ => {},
        }
        Vec::new()
    }
}

/// Resolves the attempt of player `player_index`, known outside as
/// `payer_key`, on the cell `new_position`, reached by `move_position`.
///
/// Where the cell holds a player and the offset is a basic step, the chain
/// of players thrown on must end within the number of players: see
/// `new_position_is_occupied_by_player`.
pub fn check_board_for_new_position(
    payer_key: Identity,
    board: &mut Board,
    player_index: usize,
    new_position: usize,
    move_position: i16,
) -> (events: Vec<GameEvent>)
    requires
        old(board)@.consistent(),
        player_index < old(board).players.len(),
        new_position < old(board).board.len(),
        is_basic_offset(move_position as int, old(board)@.side()) ==> old(board)@.chain_ends(
            new_position as int,
            move_position as int,
            old(board)@.players.len(),
        ),
    ensures
        final(board)@.consistent(),
        final(board)@ == old(board)@.resolve(
            payer_key,
            player_index as int,
            new_position as int,
            move_position as int,
            old(board)@.players.len(),
        ).state,
        events@ == old(board)@.resolve(
            payer_key,
            player_index as int,
            new_position as int,
            move_position as int,
            old(board)@.players.len(),
        ).events,
        final(board).players.len() == old(board).players.len(),
        final(board).board.len() == old(board).board.len(),
{
    proof {
        crate::state::lemma_consistent_in_bounds(board@);
        crate::preservation::lemma_resolution_keeps_consistent(
            board@,
            payer_key,
            player_index as int,
            new_position as int,
            move_position as int,
            board@.players.len(),
        );
    }
    if board.board[new_position].is_player() {
        new_position_is_occupied_by_player(board, player_index, move_position, new_position)
    } else {
        land(payer_key, board, player_index, new_position)
    }
}

impl GameState {
    /// First cell of the stretch that a power push from `from` can reach:
    /// the row of `from` for a push along the row, the whole board for one
    /// along the column.
    pub open spec fn lane_start(self, from: int, direction: int) -> int {
        if direction == 1 || direction == -1 {
            (from / self.side()) * self.side()
        } else {
            0
        }
    }

    /// The cell after the last of that stretch.
    pub open spec fn lane_end(self, from: int, direction: int) -> int {
        if direction == 1 || direction == -1 {
            (from / self.side()) * self.side() + self.side()
        } else {
            self.cells()
        }
    }

    /// The first cell with a player on it among `at`, `at + direction`,
    /// `at + 2 * direction`, ... as far as these lie from `lo` up to, but
    /// not including, `hi`.
    pub open spec fn first_in_way(self, at: int, direction: int, lo: int, hi: int) -> Option<int>
        decreases
            (if direction > 0 {
                if at < hi {
                    hi - at
                } else {
                    0
                }
            } else {
                if at >= lo {
                    at - lo + 1
                } else {
                    0
                }
            }),
    {
        if direction == 0 || at < lo || at >= hi {
            None
        } else if self.occupied(at) {
            Some(at)
        } else {
            self.first_in_way(at + direction, direction, lo, hi)
        }
    }

    /// The cell of the player that a power push by player `p` in
    /// `direction` hits: the first player met on the way from the cell next
    /// to `p`, without wrapping round an edge of the board.
    pub open spec fn power_target(self, p: int, direction: int) -> Option<int> {
        let from = self.players[p].current_position as int;
        self.first_in_way(
            from + direction,
            direction,
            self.lane_start(from, direction),
            self.lane_end(from, direction),
        )
    }

    /// Player `p` spends its charge on a push in `direction`. The player
    /// hit, if there is one, attempts the cell that lies as many steps on as
    /// the charge is worth, this time wrapping round the edges. The charge is
    /// gone whether or not anyone was hit.
    pub open spec fn power_used(self, p: int, direction: int) -> Resolution {
        match self.power_target(p, direction) {
            Some(cell) => {
                let target = self.occupant(cell);
                let offset = POWERUP_SCORE * direction;
                let pushed = self.resolve(
                    self.players[target].player,
                    target,
                    toroidal_index(
                        self.players[target].current_position as int,
                        offset,
                        self.cells(),
                    ),
                    offset,
                    self.players.len(),
                );
                Resolution { state: pushed.state.discharged(p), events: pushed.events }
            },
            None => Resolution { state: self.discharged(p), events: Seq::empty() },
        }
    }
}

/// Spends the charge of player `player_index` on a push in the direction of
/// `power_use_direction`, the offset of one basic step.
pub fn use_power_with_direction(
    board: &mut Board,
    player_index: usize,
    power_use_direction: i16,
) -> (events: Vec<GameEvent>)
    requires
        old(board)@.consistent(),
        player_index < old(board).players.len(),
        is_basic_offset(power_use_direction as int, old(board)@.side()),
    ensures
        final(board)@.consistent(),
        final(board)@ == old(board)@.power_used(
            player_index as int,
            power_use_direction as int,
        ).state,
        events@ == old(board)@.power_used(player_index as int, power_use_direction as int).events,
{
    let ghost s0 = board@;
    proof {
        crate::state::lemma_consistent_in_bounds(s0);
    }
    let board_cells = board.active_board_cells();
    let board_side_len: i16 = board.board_side_len as i16;
    let current_position = board.players[player_index].current_position;
    let horizontal = power_use_direction == 1 || power_use_direction == -1;
    proof {
        crate::geometry::lemma_row_bounds(current_position as int, s0.side());
    }
    let lane_start: i16 = if horizontal {
        (current_position / board_side_len) * board_side_len
    } else {
        0
    };
    let lane_end: i16 = if horizontal {
        lane_start + board_side_len
    } else {
        board_cells as i16
    };
    let mut events: Vec<GameEvent> = Vec::new();
    let mut i: i16 = current_position + power_use_direction;
    let mut found: bool = false;
    while !found && lane_start <= i && i < lane_end
        invariant
            board@ == s0,
            s0.consistent(),
            s0.in_bounds(),
            s0.cells() <= 144,
            is_basic_offset(power_use_direction as int, s0.side()),
            board_side_len == s0.side(),
            0 <= lane_start <= lane_end <= s0.cells(),
            lane_start == s0.lane_start(current_position as int, power_use_direction as int),
            lane_end == s0.lane_end(current_position as int, power_use_direction as int),
            -12 <= i <= 156,
            !found ==> s0.power_target(player_index as int, power_use_direction as int)
                == s0.first_in_way(
                i as int,
                power_use_direction as int,
                lane_start as int,
                lane_end as int,
            ),
            found ==> s0.power_target(player_index as int, power_use_direction as int) == Some(
                i as int,
            ) && lane_start <= i < lane_end && s0.occupied(i as int),
        decreases
            (if found {
                0
            } else if power_use_direction > 0 {
                if i < lane_end {
                    lane_end - i + 1
                } else {
                    1
                }
            } else {
                if i >= lane_start {
                    i - lane_start + 2
                } else {
                    1
                }
            }),
    {
        if check_if_player_exists(i, board) {
            found = true;
        } else {
            i = i + power_use_direction;
        }
    }
    if found {
        let attacked_player_index = player_id_to_index(board.board[i as usize].player_id());
        let attacked_player_current_position =
            board.players[attacked_player_index].current_position;
        assert(-12 <= power_use_direction <= 12);
        let reach: i16 = POWERUP_SCORE as i16;
        assert(reach == 4);
        let new_position_offset: i16 = reach * power_use_direction;
        let attacked_player_new_position = advance(
            attacked_player_current_position,
            new_position_offset,
            board_cells,
        );
        let attacked_key = board.players[attacked_player_index].player;
        events = check_board_for_new_position(
            attacked_key,
            board,
            attacked_player_index,
            attacked_player_new_position,
            new_position_offset,
        );
    }
    let ghost pushed = board@;
    board.players[player_index].powerup_score = 0;
    proof {
        assert(board@.players =~= pushed.discharged(player_index as int).players);
        crate::preservation::lemma_discharged_keeps_consistent(pushed, player_index as int);
    }
    events
}

} // verus!
