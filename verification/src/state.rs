//! The session's data: cell marks, players, directions and the board, with
//! the mathematical model that the contracts of this crate speak of.
use crate::constants::{BOMB_MARK, EMPTY, KING_MARK, MAX_PLAYERS, POWERUP_MARK};
use vstd::prelude::*;

verus! {

/// What a board cell holds.
#[derive(Clone, Copy, PartialEq, Eq, Structural, Debug)]
pub enum Mark {
    /// Nothing.
    Empty,
    /// The king tile.
    King,
    /// The bomb tile.
    Bomb,
    /// The powerup tile.
    Powerup,
    /// The player with this id.
    Player(u8),
}

impl Mark {
    /// Whether the mark can be written as a cell code: a player mark must
    /// carry an id between 1 and the largest player count.
    pub open spec fn encodable(self) -> bool {
        self matches Mark::Player(id) ==> 1 <= id <= MAX_PLAYERS
    }

    /// The cell code of a mark.
    pub open spec fn code(self) -> u8 {
        match self {
            Mark::Empty => EMPTY,
            Mark::King => KING_MARK,
            Mark::Bomb => BOMB_MARK,
            Mark::Powerup => POWERUP_MARK,
            Mark::Player(id) => id,
        }
    }

    /// The mark that a cell code stands for, if it stands for one.
    pub open spec fn of_code(code: u8) -> Option<Mark> {
        if code == EMPTY {
            Some(Mark::Empty)
        } else if code == KING_MARK {
            Some(Mark::King)
        } else if code == BOMB_MARK {
            Some(Mark::Bomb)
        } else if code == POWERUP_MARK {
            Some(Mark::Powerup)
        } else if 1 <= code <= MAX_PLAYERS {
            Some(Mark::Player(code))
        } else {
            None
        }
    }

    /// Writes the mark as its cell code.
    pub fn encode(self) -> (code: u8)
        requires
            self.encodable(),
        ensures
            code == self.code(),
            Mark::of_code(code) == Some(self),
    {
        match self {
            Mark::Empty => EMPTY,
            Mark::King => KING_MARK,
            Mark::Bomb => BOMB_MARK,
            Mark::Powerup => POWERUP_MARK,
            Mark::Player(id) => id,
        }
    }

    /// Reads a cell code. Codes that stand for no mark, among them player
    /// ids above the largest player count, give `None`.
    pub fn decode(code: u8) -> (mark: Option<Mark>)
        ensures
            mark == Mark::of_code(code),
            mark matches Some(m) ==> m.encodable() && m.code() == code,
    {
        if code == EMPTY {
            Some(Mark::Empty)
        } else if code == KING_MARK {
            Some(Mark::King)
        } else if code == BOMB_MARK {
            Some(Mark::Bomb)
        } else if code == POWERUP_MARK {
            Some(Mark::Powerup)
        } else if 1 <= code && code <= MAX_PLAYERS {
            Some(Mark::Player(code))
        } else {
            None
        }
    }

    /// The id of the player whose mark this is.
    pub fn player_id(self) -> (id: u8)
        requires
            self is Player,
        ensures
            self == Mark::Player(id),
    {
        match self {
            Mark::Player(id) => id,
            _ => vstd::pervasive::unreached(),
        }
    }

    /// Whether the mark is that of some player.
    pub fn is_player(self) -> (r: bool)
        ensures
            r == (self is Player),
    {
        match self {
            Mark::Player(_) => true,
            _ => false,
        }
    }
}

/// Every encodable mark is read back from its code, and no two of them
/// share a code.
pub proof fn lemma_codes_distinguish_marks(a: Mark, b: Mark)
    requires
        a.encodable(),
        b.encodable(),
    ensures
        Mark::of_code(a.code()) == Some(a),
        a.code() == b.code() ==> a == b,
{
}

/// The identity under which the outside world knows a player: 32 bytes that
/// this crate compares and hands on but never interprets.
#[derive(Clone, Copy, PartialEq, Eq, Debug)]
pub struct Identity {
    pub bytes: [u8; 32],
}

impl Identity {
    /// Whether two identities are the same, byte for byte.
    pub fn same_as(&self, other: &Identity) -> (r: bool)
        ensures
            r == (*self == *other),
    {
        let mut i: usize = 0;
        while i < 32
            invariant
                i <= 32,
                forall|k: int| 0 <= k < i ==> self.bytes@[k] == other.bytes@[k],
            decreases 32 - i,
        {
            if self.bytes[i] != other.bytes[i] {
                return false;
            }
            i = i + 1;
        }
        assert(self.bytes =~= other.bytes);
        true
    }
}

/// What the session records of one player.
#[derive(Clone, Copy, PartialEq, Eq, Debug)]
pub struct Player {
    /// Outside identity of the player.
    pub player: Identity,
    /// Points gathered while standing on the king's cell.
    pub score: u64,
    /// Index of the cell the player stands on.
    pub current_position: i16,
    /// 1-based id, given in registration order; also the player's cell mark.
    pub id: u8,
    /// Zero, or the value that stands for one pending power push.
    pub powerup_score: u64,
}

/// The four directions a player can step or push in.
#[derive(Clone, Copy, PartialEq, Eq, Structural, Debug)]
pub enum Direction {
    Up,
    Down,
    Left,
    Right,
}

impl Direction {
    /// The change of cell index that one step in this direction makes on a
    /// board of the given side length.
    pub open spec fn offset_spec(self, side: int) -> int {
        match self {
            Direction::Right => 1,
            Direction::Left => -1,
            Direction::Down => side,
            Direction::Up => -side,
        }
    }

    /// The change of cell index that one step in this direction makes.
    pub fn offset(self, board_side_len: u8) -> (delta: i16)
        ensures
            delta == self.offset_spec(board_side_len as int),
    {
        let side: i16 = board_side_len as i16;
        match self {
            Direction::Right => 1,
            Direction::Left => -1,
            Direction::Down => side,
            Direction::Up => -side,
        }
    }
}

/// The side lengths and player counts that go together.
pub open spec fn valid_mode_spec(board_side_len: u8, max_players: u8) -> bool {
    ||| (board_side_len == 8 && max_players == 2)
    ||| (board_side_len == 10 && max_players == 4)
    ||| (board_side_len == 12 && max_players == 6)
}

/// One session: its configuration, its cells and its players.
#[derive(Clone, PartialEq, Eq, Debug)]
pub struct Board {
    /// Identifier of the session, chosen by whoever opened it.
    pub game_id: u64,
    /// The registered players, in registration order.
    pub players: Vec<Player>,
    /// Whether the session is running.
    pub is_active: bool,
    /// The cells, row after row.
    pub board: Vec<Mark>,
    /// Side length of the board: 8, 10 or 12.
    pub board_side_len: u8,
    /// Number of players the session needs and admits.
    pub max_players: u8,
    /// Fee each player pays on registration.
    pub registration_fee_lamports: u64,
    /// Reward paid per score point.
    pub lamports_per_score: u64,
    /// Number of registered players.
    pub players_count: u8,
    /// Index of the cell the king tile was last put on.
    pub king_current_position: u8,
    /// Kept for pacing moves; no operation reads it.
    pub last_move_timestamp: i64,
    /// Time, in seconds, at which the session ends.
    pub game_end_timestamp: i64,
    /// Index of the cell the powerup tile was last put on.
    pub powerup_current_position: u8,
    /// Index of the cell the bomb tile was last put on.
    pub bomb_current_position: u8,
}

/// The mathematical value of a [`Board`]: the same fields, with sequences
/// in place of vectors.
pub struct GameState {
    pub game_id: u64,
    pub players: Seq<Player>,
    pub is_active: bool,
    pub board: Seq<Mark>,
    pub board_side_len: u8,
    pub max_players: u8,
    pub registration_fee_lamports: u64,
    pub lamports_per_score: u64,
    pub players_count: u8,
    pub king_current_position: u8,
    pub last_move_timestamp: i64,
    pub game_end_timestamp: i64,
    pub powerup_current_position: u8,
    pub bomb_current_position: u8,
}

impl View for Board {
    type V = GameState;

    open spec fn view(&self) -> GameState {
        GameState {
            game_id: self.game_id,
            players: self.players@,
            is_active: self.is_active,
            board: self.board@,
            board_side_len: self.board_side_len,
            max_players: self.max_players,
            registration_fee_lamports: self.registration_fee_lamports,
            lamports_per_score: self.lamports_per_score,
            players_count: self.players_count,
            king_current_position: self.king_current_position,
            last_move_timestamp: self.last_move_timestamp,
            game_end_timestamp: self.game_end_timestamp,
            powerup_current_position: self.powerup_current_position,
            bomb_current_position: self.bomb_current_position,
        }
    }
}

impl GameState {
    /// Side length of the board.
    pub open spec fn side(self) -> int {
        self.board_side_len as int
    }

    /// Number of cells of the board.
    pub open spec fn cells(self) -> int {
        self.board.len() as int
    }

    /// Whether every index the state holds can be followed: the board has
    /// `side * side` cells, few enough to be counted in an `i16`, and every
    /// player stands on one of them.
    pub open spec fn in_bounds(self) -> bool {
        &&& self.board.len() == self.side() * self.side()
        &&& 0 < self.board.len() <= i16::MAX
        &&& forall|i: int|
            0 <= i < self.players.len() ==> 0 <= (#[trigger] self.players[i]).current_position
                < self.board.len()
    }

    /// Whether the cell holds the mark of some player.
    pub open spec fn occupied(self, cell: int) -> bool {
        self.board[cell] is Player
    }

    /// Index, in `players`, of the player whose mark the cell holds.
    pub open spec fn occupant(self, cell: int) -> int {
        self.board[cell]->Player_0 - 1
    }

    /// Whether player `i` carries the id `i + 1` and its position is a cell
    /// of the board.
    #[verifier::inline]
    pub open spec fn player_is_listed(self, i: int) -> bool {
        &&& self.players[i].id == i + 1
        &&& 0 <= self.players[i].current_position < self.board.len()
    }

    /// Whether player `i` is listed and stands on a cell that carries its
    /// mark.
    #[verifier::inline]
    pub open spec fn player_is_placed(self, i: int) -> bool {
        &&& self.player_is_listed(i)
        &&& self.board[self.players[i].current_position as int] == Mark::Player(
            self.players[i].id,
        )
    }

    /// Whether the mark on cell `c` is claimed: a tile's mark by the index
    /// of that tile, a player's mark by the position of that player.
    #[verifier::inline]
    pub open spec fn cell_is_claimed(self, c: int) -> bool {
        match self.board[c] {
            Mark::Empty => true,
            Mark::King => c == self.king_current_position,
            Mark::Bomb => c == self.bomb_current_position,
            Mark::Powerup => c == self.powerup_current_position,
            Mark::Player(id) => 1 <= id <= self.players.len() && self.players[id
                - 1].current_position == c,
        }
    }

    /// What every operation needs of a session and every operation keeps.
    ///
    /// The configuration is a supported one; the board has `side * side`
    /// cells; the players carry the ids 1, 2, ... in order and their
    /// positions are cells of the board; each player mark on the board is
    /// that of a player whose position is that cell; and a tile mark lies
    /// only on the cell that the tile's index names.
    pub open spec fn consistent(self) -> bool {
        &&& valid_mode_spec(self.board_side_len, self.max_players)
        &&& self.board.len() == self.side() * self.side()
        &&& self.players.len() == self.players_count
        &&& self.players_count <= self.max_players
        &&& self.king_current_position < self.board.len()
        &&& self.powerup_current_position < self.board.len()
        &&& self.bomb_current_position < self.board.len()
        &&& forall|i: int|
            #![trigger self.players[i]]
            0 <= i < self.players.len() ==> self.player_is_listed(i)
        &&& forall|c: int|
            #![trigger self.board[c]]
            0 <= c < self.board.len() ==> self.cell_is_claimed(c)
    }

    /// The session's invariant: it is consistent; each player stands on a
    /// cell that carries its mark, so that no two players share a cell; and
    /// until the last slot is taken, every player stands on its home slot
    /// without a charge.
    pub open spec fn well_formed(self) -> bool {
        &&& self.consistent()
        &&& forall|i: int|
            #![trigger self.players[i]]
            0 <= i < self.players.len() ==> self.player_is_placed(i)
        &&& self.players_count < self.max_players ==> forall|i: int|
            0 <= i < self.players.len() ==> (#[trigger] self.players[i]).current_position == i
                && self.players[i].powerup_score == 0
    }
}

impl Default for Board {
    /// A session not yet opened: every field zero, no cells, no players.
    fn default() -> (b: Board)
        ensures
            b@.players.len() == 0,
            b@.board.len() == 0,
            !b.is_active,
            b.game_id == 0 && b.board_side_len == 0 && b.max_players == 0 && b.players_count
                == 0,
            b.registration_fee_lamports == 0 && b.lamports_per_score == 0,
            b.king_current_position == 0 && b.powerup_current_position == 0
                && b.bomb_current_position == 0,
            b.last_move_timestamp == 0 && b.game_end_timestamp == 0,
    {
        Board {
            game_id: 0,
            players: Vec::new(),
            is_active: false,
            board: Vec::new(),
            board_side_len: 0,
            max_players: 0,
            registration_fee_lamports: 0,
            lamports_per_score: 0,
            players_count: 0,
            king_current_position: 0,
            last_move_timestamp: 0,
            game_end_timestamp: 0,
            powerup_current_position: 0,
            bomb_current_position: 0,
        }
    }
}

impl Board {
    /// Checks that the session is consistent. A host that keeps the session
    /// in a form of its own calls this before it hands the session to an
    /// operation that asks for a consistent one.
    pub fn is_consistent(&self) -> (ok: bool)
        ensures
            ok == self@.consistent(),
    {
        let side: usize = self.board_side_len as usize;
        let mode_ok = (self.board_side_len == 8 && self.max_players == 2) || (self.board_side_len
            == 10 && self.max_players == 4) || (self.board_side_len == 12 && self.max_players
            == 6);
        if !mode_ok {
            return false;
        }
        let cells: usize = side * side;
        if self.board.len() != cells || self.players.len() != self.players_count as usize
            || self.players_count > self.max_players {
            return false;
        }
        if self.king_current_position as usize >= cells || self.powerup_current_position as usize
            >= cells || self.bomb_current_position as usize >= cells {
            return false;
        }
        let mut i: usize = 0;
        while i < self.players.len()
            invariant
                i <= self.players.len(),
                cells == self.board.len(),
                cells <= 144,
                self.players.len() <= 6,
                forall|k: int|
                    #![trigger self@.players[k]]
                    0 <= k < i ==> self@.player_is_listed(k),
            decreases self.players.len() - i,
        {
            let player = &self.players[i];
            if player.id as usize != i + 1 || player.current_position < 0
                || player.current_position as usize >= cells {
                return false;
            }
            i = i + 1;
        }
        let mut c: usize = 0;
        while c < cells
            invariant
                c <= cells,
                cells == self.board.len(),
                forall|k: int|
                    #![trigger self@.board[k]]
                    0 <= k < c ==> self@.cell_is_claimed(k),
            decreases cells - c,
        {
            let held = match self.board[c] {
                Mark::Empty => true,
                Mark::King => c == self.king_current_position as usize,
                Mark::Bomb => c == self.bomb_current_position as usize,
                Mark::Powerup => c == self.powerup_current_position as usize,
                Mark::Player(id) => 1 <= id && id as usize <= self.players.len() && {
                    let at = self.players[(id - 1) as usize].current_position;
                    at >= 0 && at as usize == c
                },
            };
            if !held {
                return false;
            }
            c = c + 1;
        }
        true
    }

    /// Checks the session's invariant.
    pub fn is_well_formed(&self) -> (ok: bool)
        ensures
            ok == self@.well_formed(),
    {
        if !self.is_consistent() {
            return false;
        }
        let waiting = self.players_count < self.max_players;
        let mut i: usize = 0;
        while i < self.players.len()
            invariant
                i <= self.players.len(),
                self@.consistent(),
                waiting == (self.players_count < self.max_players),
                forall|k: int|
                    #![trigger self@.players[k]]
                    0 <= k < i ==> {
                        &&& self@.player_is_placed(k)
                        &&& waiting ==> self@.players[k].current_position == k
                            && self@.players[k].powerup_score == 0
                    },
            decreases self.players.len() - i,
        {
            let player = &self.players[i];
            if self.board[player.current_position as usize] != Mark::Player(player.id) {
                return false;
            }
            if waiting && (player.current_position as usize != i || player.powerup_score != 0) {
                return false;
            }
            i = i + 1;
        }
        true
    }

    /// Number of cells of a board of this side length.
    pub fn active_board_cells(&self) -> (cells: usize)
        ensures
            cells == self@.side() * self@.side(),
    {
        let side: usize = self.board_side_len as usize;
        assert(side * side <= 255 * 255) by (nonlinear_arith)
            requires
                side <= 255,
        ;
        side * side
    }
}

/// On a consistent state every index can be followed, and the board is one
/// of the three supported sizes.
pub proof fn lemma_consistent_in_bounds(s: GameState)
    requires
        s.consistent(),
    ensures
        s.in_bounds(),
        (s.side() == 8 && s.cells() == 64 && s.max_players == 2) || (s.side() == 10 && s.cells()
            == 100 && s.max_players == 4) || (s.side() == 12 && s.cells() == 144 && s.max_players
            == 6),
{
}

/// On a well-formed state every index can be followed, and the board is one
/// of the three supported sizes.
pub proof fn lemma_well_formed_in_bounds(s: GameState)
    requires
        s.well_formed(),
    ensures
        s.consistent(),
        s.in_bounds(),
        (s.side() == 8 && s.cells() == 64 && s.max_players == 2) || (s.side() == 10 && s.cells()
            == 100 && s.max_players == 4) || (s.side() == 12 && s.cells() == 144 && s.max_players
            == 6),
{
}

/// On a well-formed state no two players stand on the same cell.
pub proof fn lemma_one_occupant(s: GameState, i: int, j: int)
    requires
        s.well_formed(),
        0 <= i < s.players.len(),
        0 <= j < s.players.len(),
        s.players[i].current_position == s.players[j].current_position,
    ensures
        i == j,
{
}

} // verus!
