//! Finding the first empty cell from a starting cell, and putting a special
//! tile there.
use crate::state::{
    lemma_consistent_in_bounds, lemma_well_formed_in_bounds, Board, GameState, Mark,
};
use vstd::prelude::*;

verus! {

/// Whether some cell is empty.
pub open spec fn has_empty(cells: Seq<Mark>) -> bool {
    exists|c: int| 0 <= c < cells.len() && cells[c] == Mark::Empty
}

/// The cell that lies `steps` cells after `start`, going round the board.
pub open spec fn cell_after(cells: Seq<Mark>, start: int, steps: int) -> int {
    (start + steps) % (cells.len() as int)
}

/// Probing forward from `start` when the `tried` cells from `start` on are
/// known not to be empty: the first empty cell met, or `start` itself once
/// every cell has been tried.
pub open spec fn probe_from(cells: Seq<Mark>, start: int, tried: nat) -> int
    decreases cells.len() - tried,
{
    if tried >= cells.len() {
        start
    } else if cells[cell_after(cells, start, tried as int)] == Mark::Empty {
        cell_after(cells, start, tried as int)
    } else {
        probe_from(cells, start, tried + 1)
    }
}

/// The first empty cell at or after `start`, going round the board; `start`
/// itself where no cell is empty.
pub open spec fn first_empty_from(cells: Seq<Mark>, start: int) -> int {
    probe_from(cells, start, 0)
}

/// Whether `found` is the first empty cell at or after `start`: it is empty,
/// and no cell passed on the way from `start` to it is.
pub open spec fn is_first_empty_from(cells: Seq<Mark>, start: int, found: int) -> bool {
    &&& 0 <= found < cells.len()
    &&& cells[found] == Mark::Empty
    &&& forall|steps: int|
        0 <= steps < (found - start) % (cells.len() as int) ==> cells[#[trigger] cell_after(
            cells,
            start,
            steps,
        )] != Mark::Empty
}

/// Where a probe that has already passed `tried` cells ends, given that an
/// empty cell lies `reach` steps after `start` and none lies before it.
proof fn lemma_probe_reaches(cells: Seq<Mark>, start: int, tried: nat, reach: int)
    requires
        0 <= start < cells.len(),
        tried <= reach < cells.len(),
        cells[cell_after(cells, start, reach)] == Mark::Empty,
        forall|steps: int|
            0 <= steps < reach ==> cells[#[trigger] cell_after(cells, start, steps)]
                != Mark::Empty,
    ensures
        probe_from(cells, start, tried) == cell_after(cells, start, reach),
    decreases reach - tried,
{
    if tried < reach {
        lemma_probe_reaches(cells, start, tried + 1, reach);
    }
}

/// The number of steps from `start` to the first empty cell.
spec fn steps_to_empty(cells: Seq<Mark>, start: int, tried: nat) -> int
    decreases cells.len() - tried,
{
    if tried >= cells.len() {
        tried as int
    } else if cells[cell_after(cells, start, tried as int)] == Mark::Empty {
        tried as int
    } else {
        steps_to_empty(cells, start, tried + 1)
    }
}

proof fn lemma_steps_to_empty(cells: Seq<Mark>, start: int, tried: nat)
    requires
        0 <= start < cells.len(),
        tried <= cells.len(),
        forall|steps: int|
            0 <= steps < tried ==> cells[#[trigger] cell_after(cells, start, steps)]
                != Mark::Empty,
    ensures
        tried <= steps_to_empty(cells, start, tried) <= cells.len(),
        forall|steps: int|
            0 <= steps < steps_to_empty(cells, start, tried) ==> cells[#[trigger] cell_after(
                cells,
                start,
                steps,
            )] != Mark::Empty,
        steps_to_empty(cells, start, tried) < cells.len() ==> cells[cell_after(
            cells,
            start,
            steps_to_empty(cells, start, tried),
        )] == Mark::Empty,
    decreases cells.len() - tried,
{
    if tried < cells.len() && cells[cell_after(cells, start, tried as int)] != Mark::Empty {
        lemma_steps_to_empty(cells, start, tried + 1);
    }
}

/// Going round the board from `start` passes every cell.
proof fn lemma_round_passes(cells: Seq<Mark>, start: int, c: int)
    requires
        0 <= start < cells.len(),
        0 <= c < cells.len(),
    ensures
        0 <= (c - start) % (cells.len() as int) < cells.len(),
        cell_after(cells, start, (c - start) % (cells.len() as int)) == c,
{
    let n = cells.len() as int;
    if c >= start {
        vstd::arithmetic::div_mod::lemma_small_mod((c - start) as nat, n as nat);
        vstd::arithmetic::div_mod::lemma_small_mod(c as nat, n as nat);
    } else {
        vstd::arithmetic::div_mod::lemma_fundamental_div_mod_converse(c - start, n, -1, c - start + n);
        vstd::arithmetic::div_mod::lemma_fundamental_div_mod_converse(c + n, n, 1, c);
    }
}

/// Where some cell is empty, `first_empty_from` names the first empty cell
/// at or after `start`, and nothing else is that cell.
pub proof fn lemma_first_empty_from(cells: Seq<Mark>, start: int)
    requires
        0 <= start < cells.len(),
        has_empty(cells),
    ensures
        is_first_empty_from(cells, start, first_empty_from(cells, start)),
        forall|other: int|
            is_first_empty_from(cells, start, other) ==> other == first_empty_from(cells, start),
{
    let n = cells.len() as int;
    let reach = steps_to_empty(cells, start, 0);
    lemma_steps_to_empty(cells, start, 0);
    let e = choose|c: int| 0 <= c < cells.len() && cells[c] == Mark::Empty;
    lemma_round_passes(cells, start, e);
    assert(reach < n) by {
        if reach >= n {
            assert(cells[cell_after(cells, start, (e - start) % n)] != Mark::Empty);
        }
    }
    lemma_probe_reaches(cells, start, 0, reach);
    let found = first_empty_from(cells, start);
    vstd::arithmetic::div_mod::lemma_mod_bound(start + reach, n);
    lemma_round_passes(cells, start, found);
    assert((found - start) % n == reach) by {
        let back = (found - start) % n;
        if back < reach {
            assert(cells[cell_after(cells, start, back)] != Mark::Empty);
        }
        if back > reach {
            lemma_steps_apart(n, start, reach, back);
        }
    }
    assert forall|other: int| is_first_empty_from(cells, start, other) implies other
        == found by {
        lemma_round_passes(cells, start, other);
        let d = (other - start) % n;
        if d < reach {
            assert(cells[cell_after(cells, start, d)] != Mark::Empty);
        }
        if d > reach {
            assert(cells[cell_after(cells, start, reach)] != Mark::Empty);
        }
    }
}

/// Two different step counts below the number of cells lead to different
/// cells.
proof fn lemma_steps_apart(n: int, start: int, a: int, b: int)
    requires
        0 <= start < n,
        0 <= a < b < n,
    ensures
        (start + a) % n != (start + b) % n,
{
    if start + a < n {
        vstd::arithmetic::div_mod::lemma_small_mod((start + a) as nat, n as nat);
    } else {
        vstd::arithmetic::div_mod::lemma_fundamental_div_mod_converse(start + a, n, 1, start + a - n);
    }
    if start + b < n {
        vstd::arithmetic::div_mod::lemma_small_mod((start + b) as nat, n as nat);
    } else {
        vstd::arithmetic::div_mod::lemma_fundamental_div_mod_converse(start + b, n, 1, start + b - n);
    }
}

/// Where exactly one cell is empty, probing ends there whatever the start.
pub proof fn lemma_single_empty_is_found(cells: Seq<Mark>, start: int, only: int)
    requires
        0 <= start < cells.len(),
        0 <= only < cells.len(),
        cells[only] == Mark::Empty,
        forall|c: int| 0 <= c < cells.len() && cells[c] == Mark::Empty ==> c == only,
    ensures
        first_empty_from(cells, start) == only,
{
    lemma_first_empty_from(cells, start);
}

/// Finds the first empty cell at or after `start`, going round the board.
pub fn probe(cells: &Vec<Mark>, start: usize) -> (found: usize)
    requires
        start < cells.len(),
        has_empty(cells@),
    ensures
        found == first_empty_from(cells@, start as int),
        is_first_empty_from(cells@, start as int, found as int),
{
    let n: usize = cells.len();
    let mut at: usize = start;
    let mut tried: usize = 0;
    proof {
        vstd::arithmetic::div_mod::lemma_small_mod(start as nat, n as nat);
    }
    loop
        invariant
            n == cells.len(),
            start < n,
            has_empty(cells@),
            tried < n,
            at == cell_after(cells@, start as int, tried as int),
            at < n,
            probe_from(cells@, start as int, tried as nat) == first_empty_from(
                cells@,
                start as int,
            ),
            forall|steps: int|
                0 <= steps < tried ==> cells@[#[trigger] cell_after(cells@, start as int, steps)]
                    != Mark::Empty,
        decreases n - tried,
    {
        match cells[at] {
            Mark::Empty => {
                proof {
                    lemma_first_empty_from(cells@, start as int);
                }
                return at;
            },
            _ => {},
        }
        proof {
            if tried + 1 >= n {
                let e = choose|c: int| 0 <= c < cells@.len() && cells@[c] == Mark::Empty;
                lemma_round_passes(cells@, start as int, e);
                assert(false);
            }
            lemma_next_cell(n as int, start as int, tried as int);
        }
        tried = tried + 1;
        at = if at + 1 == n {
            0
        } else {
            at + 1
        };
    }
}

/// The cell one step further round the board.
proof fn lemma_next_cell(n: int, start: int, steps: int)
    requires
        0 <= start < n,
        0 <= steps,
        steps + 1 < n,
    ensures
        (start + steps + 1) % n == (if (start + steps) % n + 1 == n {
            0
        } else {
            (start + steps) % n + 1
        }),
{
    if start + steps < n {
        vstd::arithmetic::div_mod::lemma_small_mod((start + steps) as nat, n as nat);
    } else {
        vstd::arithmetic::div_mod::lemma_fundamental_div_mod_converse(
            start + steps,
            n,
            1,
            start + steps - n,
        );
    }
    if start + steps + 1 < n {
        vstd::arithmetic::div_mod::lemma_small_mod((start + steps + 1) as nat, n as nat);
    } else {
        vstd::arithmetic::div_mod::lemma_fundamental_div_mod_converse(
            start + steps + 1,
            n,
            1,
            start + steps + 1 - n,
        );
    }
}

/// The three tiles that are put on the board at random.
#[derive(Clone, Copy, PartialEq, Eq, Structural, Debug)]
pub enum SpecialTile {
    King,
    Bomb,
    Powerup,
}

impl SpecialTile {
    /// The mark that a cell carrying the tile holds.
    pub open spec fn mark_spec(self) -> Mark {
        match self {
            SpecialTile::King => Mark::King,
            SpecialTile::Bomb => Mark::Bomb,
            SpecialTile::Powerup => Mark::Powerup,
        }
    }

    /// The mark that a cell carrying the tile holds.
    pub fn mark(self) -> (m: Mark)
        ensures
            m == self.mark_spec(),
    {
        match self {
            SpecialTile::King => Mark::King,
            SpecialTile::Bomb => Mark::Bomb,
            SpecialTile::Powerup => Mark::Powerup,
        }
    }
}

impl GameState {
    /// The cell that the tile was last put on.
    pub open spec fn tile_position(self, tile: SpecialTile) -> u8 {
        match tile {
            SpecialTile::King => self.king_current_position,
            SpecialTile::Bomb => self.bomb_current_position,
            SpecialTile::Powerup => self.powerup_current_position,
        }
    }

    /// The state with the tile's index set to `cell`.
    pub open spec fn with_tile_position(self, tile: SpecialTile, cell: u8) -> GameState {
        match tile {
            SpecialTile::King => GameState { king_current_position: cell, ..self },
            SpecialTile::Bomb => GameState { bomb_current_position: cell, ..self },
            SpecialTile::Powerup => GameState { powerup_current_position: cell, ..self },
        }
    }

    /// The cells once the tile has been taken off the board: the cell it was
    /// last put on is emptied if it still carries the tile's mark, and left
    /// alone if a player has since moved onto it.
    pub open spec fn lifted(self, tile: SpecialTile) -> Seq<Mark> {
        let site = self.tile_position(tile) as int;
        if self.board[site] == tile.mark_spec() {
            self.board.update(site, Mark::Empty)
        } else {
            self.board
        }
    }

    /// Whether the tile can be put somewhere: the board has as many cells as
    /// its side length asks for, few enough for a cell index to fit in a
    /// byte; the tile's index is one of them; and a cell is empty once the
    /// tile is lifted. The last is what probing needs to come to an end.
    pub open spec fn has_room_for(self, tile: SpecialTile) -> bool {
        &&& self.board.len() == self.side() * self.side()
        &&& 0 < self.board.len() <= 256
        &&& self.tile_position(tile) < self.board.len()
        &&& has_empty(self.lifted(tile))
    }

    /// The tile is lifted and put on the first empty cell at or after
    /// `candidate`.
    pub open spec fn respawned(self, tile: SpecialTile, candidate: int) -> GameState {
        let lifted = self.lifted(tile);
        let cell = first_empty_from(lifted, candidate);
        GameState { board: lifted.update(cell, tile.mark_spec()), ..self }.with_tile_position(
            tile,
            cell as u8,
        )
    }
}

/// Lifts the tile and puts it on the first empty cell at or after
/// `cell_index`, the cell drawn for it. Returns the cell it was put on.
pub fn spawn_special_tile(board: &mut Board, tile: SpecialTile, cell_index: usize) -> (placed: u8)
    requires
        old(board)@.has_room_for(tile),
        cell_index < old(board).board.len(),
    ensures
        final(board)@ == old(board)@.respawned(tile, cell_index as int),
        placed == final(board)@.tile_position(tile),
        is_first_empty_from(old(board)@.lifted(tile), cell_index as int, placed as int),
        final(board)@.board == old(board)@.lifted(tile).update(placed as int, tile.mark_spec()),
        final(board)@.players == old(board)@.players,
        old(board)@.consistent() ==> final(board)@.consistent(),
        old(board)@.well_formed() ==> final(board)@.well_formed(),
{
    let mark = tile.mark();
    let site: usize = match tile {
        SpecialTile::King => board.king_current_position,
        SpecialTile::Bomb => board.bomb_current_position,
        SpecialTile::Powerup => board.powerup_current_position,
    } as usize;
    if board.board[site] == mark {
        board.board[site] = Mark::Empty;
    }
    let cell = probe(&board.board, cell_index);
    board.board[cell] = mark;
    let placed: u8 = cell as u8;
    match tile {
        SpecialTile::King => {
            board.king_current_position = placed;
        },
        SpecialTile::Bomb => {
            board.bomb_current_position = placed;
        },
        SpecialTile::Powerup => {
            board.powerup_current_position = placed;
        },
    }
    proof {
        if old(board)@.consistent() {
            lemma_respawned_keeps_consistent(old(board)@, tile, cell_index as int);
        }
        if old(board)@.well_formed() {
            lemma_respawned_keeps_well_formed(old(board)@, tile, cell_index as int);
        }
    }
    placed
}

/// Putting a tile on another cell keeps a session consistent.
pub proof fn lemma_respawned_keeps_consistent(s: GameState, tile: SpecialTile, candidate: int)
    requires
        s.consistent(),
        0 <= candidate < s.cells(),
        has_empty(s.lifted(tile)),
    ensures
        s.respawned(tile, candidate).consistent(),
{
    lemma_consistent_in_bounds(s);
    let lifted = s.lifted(tile);
    lemma_first_empty_from(lifted, candidate);
    let cell = first_empty_from(lifted, candidate);
    let site = s.tile_position(tile) as int;
    let r = s.respawned(tile, candidate);
    assert forall|i: int|
        #![trigger r.players[i]]
        0 <= i < r.players.len() implies r.player_is_listed(i) by {
        assert(r.players[i] == s.players[i]);
    }
    assert forall|c: int|
        #![trigger r.board[c]]
        0 <= c < r.board.len() implies r.cell_is_claimed(c) by {
        if c != cell {
            assert(r.board[c] == lifted[c]);
            if c != site {
                assert(lifted[c] == s.board[c]);
            }
        }
    }
}

/// Putting a tile on another cell keeps a session well formed.
pub proof fn lemma_respawned_keeps_well_formed(s: GameState, tile: SpecialTile, candidate: int)
    requires
        s.well_formed(),
        0 <= candidate < s.cells(),
        has_empty(s.lifted(tile)),
    ensures
        s.respawned(tile, candidate).well_formed(),
{
    lemma_well_formed_in_bounds(s);
    let lifted = s.lifted(tile);
    lemma_first_empty_from(lifted, candidate);
    let cell = first_empty_from(lifted, candidate);
    let site = s.tile_position(tile) as int;
    let r = s.respawned(tile, candidate);
    assert forall|i: int|
        #![trigger r.players[i]]
        0 <= i < r.players.len() implies r.player_is_placed(i) by {
        assert(r.players[i] == s.players[i]);
        let at = s.players[i].current_position as int;
        assert(s.board[at] == Mark::Player(s.players[i].id));
        assert(lifted[at] == s.board[at]);
    }
    assert forall|c: int|
        #![trigger r.board[c]]
        0 <= c < r.board.len() implies r.cell_is_claimed(c) by {
        if c != cell {
            assert(r.board[c] == lifted[c]);
            if c != site {
                assert(lifted[c] == s.board[c]);
            }
        }
    }
}

/// Where exactly one cell of the board is empty and the tile does not lie on
/// the board, the tile is put on that cell, whatever cell was drawn for it.
///
/// A tile that still lies on its cell is lifted first, which empties a
/// second cell: drawn just before it, the tile goes back where it lay.
pub proof fn lemma_spawn_takes_the_only_empty_cell(
    s: GameState,
    tile: SpecialTile,
    candidate: int,
    only: int,
)
    requires
        0 <= candidate < s.board.len(),
        0 <= only < s.board.len() <= 256,
        s.tile_position(tile) < s.board.len(),
        s.board[s.tile_position(tile) as int] != tile.mark_spec(),
        s.board[only] == Mark::Empty,
        forall|c: int| 0 <= c < s.board.len() && s.board[c] == Mark::Empty ==> c == only,
    ensures
        s.respawned(tile, candidate).tile_position(tile) == only,
        s.respawned(tile, candidate).board == s.board.update(only, tile.mark_spec()),
{
    lemma_single_empty_is_found(s.lifted(tile), candidate, only);
}

/// The slot that a mark other than the empty one takes among the nine
/// occupants a session can have: three tiles and six players.
spec fn slot_of(m: Mark) -> int {
    match m {
        Mark::Empty => -1,
        Mark::King => 0,
        Mark::Bomb => 1,
        Mark::Powerup => 2,
        Mark::Player(id) => 2 + id,
    }
}

/// A consistent session always has an empty cell: its board has at least
/// 64 cells, and three tiles and six players can take nine of them.
pub proof fn lemma_consistent_has_empty(s: GameState)
    requires
        s.consistent(),
    ensures
        has_empty(s.board),
{
    lemma_consistent_in_bounds(s);
    if !has_empty(s.board) {
        let slots = Seq::new(10, |c: int| slot_of(s.board[c]));
        let all = vstd::set_lib::set_int_range(0, 9);
        assert forall|c: int| 0 <= c < 10 implies 0 <= #[trigger] slots[c] < 9 by {
            assert(s.board[c] != Mark::Empty);
        }
        assert forall|c: int, d: int| 0 <= c < d < 10 implies slots[c] != slots[d] by {
            assert(s.board[c] != Mark::Empty);
            assert(s.board[d] != Mark::Empty);
        }
        assert(slots.no_duplicates());
        slots.unique_seq_to_set();
        vstd::set_lib::lemma_int_range(0, 9);
        assert(slots.to_set().subset_of(all)) by {
            assert forall|v: int| slots.to_set().contains(v) implies all.contains(v) by {
                let c = choose|c: int| 0 <= c < slots.len() && slots[c] == v;
                assert(0 <= slots[c] < 9);
            }
        }
        vstd::set_lib::lemma_len_subset(slots.to_set(), all);
        assert(false);
    }
}

/// On a consistent session every tile has room.
pub proof fn lemma_consistent_has_room(s: GameState, tile: SpecialTile)
    requires
        s.consistent(),
    ensures
        s.has_room_for(tile),
{
    lemma_consistent_in_bounds(s);
    lemma_consistent_has_empty(s);
    let c = choose|c: int| 0 <= c < s.board.len() && s.board[c] == Mark::Empty;
    assert(s.lifted(tile)[c] == Mark::Empty);
}

} // verus!
