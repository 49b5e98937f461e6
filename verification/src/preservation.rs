//! Why resolving a step keeps the session well formed, and the one way in
//! which it does not.
use crate::chain::{
    lemma_chain_cell_closed_form, lemma_chain_cells_differ, lemma_chain_ends,
    lemma_chain_misses_origin,
};
use crate::geometry::toroidal_index;
use crate::movement::{is_basic_offset, is_power_offset, single_step};
use crate::placement::lemma_first_empty_from;
use crate::state::{
    lemma_consistent_in_bounds, lemma_well_formed_in_bounds, GameState, Identity, Mark,
};
use vstd::prelude::*;

verus! {

impl GameState {
    /// Whether every slot of the session is taken.
    pub open spec fn full(self) -> bool {
        self.players_count == self.max_players
    }

    /// Whether player `p`, stepping on a bomb at `dest`, comes down on the
    /// very cell it left.
    pub open spec fn returns_to_own_cell(self, p: int, dest: int) -> bool {
        &&& self.board[dest] == Mark::Bomb
        &&& self.bombed(p, dest).players[p].current_position == self.players[p].current_position
    }

    /// Whether the chain of players that a basic step into `dest` displaces
    /// ends with a player thrown onto the bomb who comes down on the very
    /// cell it left, the cell that the player behind it then moves onto.
    pub open spec fn chain_is_bombed_back(self, dest: int, offset: int, depth: nat) -> bool
        decreases depth,
    {
        self.occupied(dest) && depth > 0 && {
            let next = self.thrown_to(dest, offset);
            if self.occupied(next) {
                self.chain_is_bombed_back(next, offset, (depth - 1) as nat)
            } else {
                self.returns_to_own_cell(self.occupant(dest), next)
            }
        }
    }

    /// Whether player `u` stands in the chain of players that a basic step
    /// into `dest` displaces.
    pub open spec fn in_chain(self, u: int, dest: int, offset: int, depth: nat) -> bool
        decreases depth,
    {
        self.occupied(dest) && (self.occupant(dest) == u || (depth > 0 && self.in_chain(
            u,
            self.thrown_to(dest, offset),
            offset,
            (depth - 1) as nat,
        )))
    }

    /// Whether no player stands twice in the chain of players that a basic
    /// step into `dest` displaces.
    pub open spec fn chain_is_simple(self, dest: int, offset: int, depth: nat) -> bool
        decreases depth,
    {
        !self.occupied(dest) || depth == 0 || (!self.in_chain(
            self.occupant(dest),
            self.thrown_to(dest, offset),
            offset,
            (depth - 1) as nat,
        ) && self.chain_is_simple(self.thrown_to(dest, offset), offset, (depth - 1) as nat))
    }

    /// Whether two states differ in nothing but their cells and players.
    pub open spec fn same_session_as(self, other: GameState) -> bool {
        self == (GameState { board: self.board, players: self.players, ..other })
    }
}

/// Moving a player onto any cell of the board keeps a session consistent:
/// the mark that lay there is gone, and with it every claim it made.
pub proof fn lemma_relocate_keeps_consistent(s: GameState, p: int, dest: int)
    requires
        s.consistent(),
        0 <= p < s.players.len(),
        0 <= dest < s.cells(),
    ensures
        s.relocate(p, dest).consistent(),
        s.relocate(p, dest).same_session_as(s),
{
    let r = s.relocate(p, dest);
    let origin = s.players[p].current_position as int;
    lemma_consistent_in_bounds(s);
    assert forall|i: int|
        #![trigger r.players[i]]
        0 <= i < r.players.len() implies r.player_is_listed(i) by {
        if i != p {
            assert(r.players[i] == s.players[i]);
        }
    }
    assert forall|c: int|
        #![trigger r.board[c]]
        0 <= c < r.board.len() implies r.cell_is_claimed(c) by {
        if c != dest && c != origin {
            assert(r.board[c] == s.board[c]);
            if let Mark::Player(id) = s.board[c] {
                assert(s.players[id - 1].current_position == c);
                assert(id - 1 != p);
                assert(r.players[id - 1] == s.players[id - 1]);
            }
        }
    }
}

/// Landing a player on any cell of the board keeps a session consistent.
pub proof fn lemma_landed_keeps_consistent(s: GameState, key: Identity, p: int, dest: int)
    requires
        s.consistent(),
        0 <= p < s.players.len(),
        0 <= dest < s.cells(),
    ensures
        s.landed(key, p, dest).state.consistent(),
        s.landed(key, p, dest).state.same_session_as(s),
{
    lemma_consistent_in_bounds(s);
    lemma_relocate_keeps_consistent(s, p, dest);
    let origin = s.players[p].current_position as int;
    match s.board[dest] {
        Mark::Bomb => {
            let r = s.bombed(p, dest);
            let cleared = s.cleared_by_bomb(p, dest);
            assert(cleared[dest] == Mark::Empty);
            lemma_first_empty_from(cleared, p);
            let landing = crate::placement::first_empty_from(cleared, p);
            assert forall|i: int|
                #![trigger r.players[i]]
                0 <= i < r.players.len() implies r.player_is_listed(i) by {
                if i != p {
                    assert(r.players[i] == s.players[i]);
                }
            }
            assert forall|c: int|
                #![trigger r.board[c]]
                0 <= c < r.board.len() implies r.cell_is_claimed(c) by {
                if c != dest && c != origin && c != landing {
                    assert(r.board[c] == s.board[c]);
                    if let Mark::Player(id) = s.board[c] {
                        assert(s.players[id - 1].current_position == c);
                        assert(r.players[id - 1] == s.players[id - 1]);
                    }
                }
            }
        },
        Mark::Powerup => {
            let moved = s.relocate(p, dest);
            let r = moved.charged(p);
            assert forall|i: int|
                #![trigger r.players[i]]
                0 <= i < r.players.len() implies r.player_is_listed(i) by {
                assert(r.players[i].id == moved.players[i].id);
                assert(r.players[i].current_position == moved.players[i].current_position);
            }
            assert forall|c: int|
                #![trigger r.board[c]]
                0 <= c < r.board.len() implies r.cell_is_claimed(c) by {
                assert(r.board[c] == moved.board[c]);
                if let Mark::Player(id) = moved.board[c] {
                    assert(r.players[id - 1].current_position == moved.players[id
                        - 1].current_position);
                }
            }
        },
        _ => {},
    }
}

/// Resolving an attempt keeps a session consistent, whatever the cell and
/// the offset, and whether or not the chain it sets off is bombed back: the
/// board and the list of players keep their lengths, and every position
/// stays on the board.
pub proof fn lemma_resolution_keeps_consistent(
    s: GameState,
    key: Identity,
    p: int,
    dest: int,
    offset: int,
    depth: nat,
)
    requires
        s.consistent(),
        0 <= p < s.players.len(),
        0 <= dest < s.cells(),
    ensures
        s.resolve(key, p, dest, offset, depth).state.consistent(),
        s.resolve(key, p, dest, offset, depth).state.same_session_as(s),
        s.resolve(key, p, dest, offset, depth).state.in_bounds(),
        s.resolve(key, p, dest, offset, depth).state.players.len() == s.players.len(),
        s.resolve(key, p, dest, offset, depth).state.board.len() == s.board.len(),
    decreases depth,
{
    lemma_consistent_in_bounds(s);
    let r = s.resolve(key, p, dest, offset, depth).state;
    if !s.occupied(dest) {
        lemma_landed_keeps_consistent(s, key, p, dest);
    } else {
        let other = s.occupant(dest);
        let from = s.players[other].current_position as int;
        if is_basic_offset(offset, s.side()) {
            if depth > 0 {
                let next = toroidal_index(from, 2 * offset, s.cells());
                vstd::arithmetic::div_mod::lemma_mod_bound(from + 2 * offset, s.cells());
                lemma_resolution_keeps_consistent(
                    s,
                    s.players[other].player,
                    other,
                    next,
                    offset,
                    (depth - 1) as nat,
                );
                let inner = s.resolve(
                    s.players[other].player,
                    other,
                    next,
                    offset,
                    (depth - 1) as nat,
                ).state;
                lemma_relocate_keeps_consistent(inner, p, dest);
            }
        } else {
            let aside = toroidal_index(from, single_step(offset, s.side()), s.cells());
            vstd::arithmetic::div_mod::lemma_mod_bound(
                from + single_step(offset, s.side()),
                s.cells(),
            );
            if s.board[aside] == Mark::Empty {
                lemma_relocate_keeps_consistent(s, other, aside);
                lemma_relocate_keeps_consistent(s.relocate(other, aside), p, dest);
            }
        }
    }
    lemma_consistent_in_bounds(r);
}

/// Moving a player onto a cell that holds no player keeps a full session
/// well formed.
pub proof fn lemma_relocate_keeps_well_formed(s: GameState, p: int, dest: int)
    requires
        s.well_formed(),
        s.full(),
        0 <= p < s.players.len(),
        0 <= dest < s.cells(),
        !s.occupied(dest),
    ensures
        s.relocate(p, dest).well_formed(),
{
    let r = s.relocate(p, dest);
    let origin = s.players[p].current_position as int;
    lemma_well_formed_in_bounds(s);
    assert(s.board[origin] == Mark::Player(s.players[p].id));
    assert forall|i: int|
        #![trigger r.players[i]]
        0 <= i < r.players.len() implies r.player_is_placed(i) by {
        if i != p {
            assert(r.players[i] == s.players[i]);
            assert(s.board[s.players[i].current_position as int] == Mark::Player(
                s.players[i].id,
            ));
        }
    }
    assert forall|c: int|
        #![trigger r.board[c]]
        0 <= c < r.board.len() implies r.cell_is_claimed(c) by {
        if c != dest && c != origin {
            assert(r.board[c] == s.board[c]);
        }
    }
}

/// Sending a player home from a bomb keeps a full session well formed.
pub proof fn lemma_bombed_keeps_well_formed(s: GameState, p: int, dest: int)
    requires
        s.well_formed(),
        s.full(),
        0 <= p < s.players.len(),
        0 <= dest < s.cells(),
        !s.occupied(dest),
    ensures
        s.bombed(p, dest).well_formed(),
        0 <= s.bombed(p, dest).players[p].current_position < s.cells(),
        s.bombed(p, dest).players[p].current_position != s.players[p].current_position
            ==> s.bombed(p, dest).board[s.players[p].current_position as int] == Mark::Empty,
{
    let r = s.bombed(p, dest);
    let origin = s.players[p].current_position as int;
    let cleared = s.cleared_by_bomb(p, dest);
    lemma_well_formed_in_bounds(s);
    assert(cleared[dest] == Mark::Empty);
    lemma_first_empty_from(cleared, p);
    let landing = crate::placement::first_empty_from(cleared, p);
    assert(s.board[origin] == Mark::Player(s.players[p].id));
    assert forall|i: int|
        #![trigger r.players[i]]
        0 <= i < r.players.len() implies r.player_is_placed(i) by {
        if i != p {
            assert(r.players[i] == s.players[i]);
            assert(s.board[s.players[i].current_position as int] == Mark::Player(
                s.players[i].id,
            ));
        }
    }
    assert forall|c: int|
        #![trigger r.board[c]]
        0 <= c < r.board.len() implies r.cell_is_claimed(c) by {
        if c != dest && c != origin && c != landing {
            assert(r.board[c] == s.board[c]);
        }
    }
}

/// Landing a player on a cell that holds no player changes nothing of the
/// session but its cells and that player, and empties the cell the player
/// left, unless a bomb sent the player back onto that very cell.
pub proof fn lemma_landed_frame(s: GameState, key: Identity, p: int, dest: int)
    requires
        s.well_formed(),
        0 <= p < s.players.len(),
        0 <= dest < s.cells(),
        !s.occupied(dest),
    ensures
        s.landed(key, p, dest).state.same_session_as(s),
        s.landed(key, p, dest).state.players.len() == s.players.len(),
        s.landed(key, p, dest).state.board.len() == s.board.len(),
        forall|u: int|
            0 <= u < s.players.len() && u != p ==> s.landed(key, p, dest).state.players[u]
                == s.players[u],
        !s.returns_to_own_cell(p, dest) ==> s.landed(
            key,
            p,
            dest,
        ).state.board[s.players[p].current_position as int] == Mark::Empty,
{
    lemma_well_formed_in_bounds(s);
    let cleared = s.cleared_by_bomb(p, dest);
    assert(cleared[dest] == Mark::Empty);
    lemma_first_empty_from(cleared, p);
    assert(s.board[s.players[p].current_position as int] == Mark::Player(s.players[p].id));
}

/// Landing a player on a cell that holds no player keeps a full session
/// well formed.
pub proof fn lemma_landed_keeps_well_formed(s: GameState, key: Identity, p: int, dest: int)
    requires
        s.well_formed(),
        s.full(),
        0 <= p < s.players.len(),
        0 <= dest < s.cells(),
        !s.occupied(dest),
    ensures
        s.landed(key, p, dest).state.well_formed(),
{
    lemma_relocate_keeps_well_formed(s, p, dest);
    lemma_bombed_keeps_well_formed(s, p, dest);
    let moved = s.relocate(p, dest);
    let r = moved.charged(p);
    assert forall|i: int|
        #![trigger r.players[i]]
        0 <= i < r.players.len() implies r.player_is_placed(i) by {
        assert(r.players[i].id == moved.players[i].id);
        assert(r.players[i].current_position == moved.players[i].current_position);
    }
    assert forall|c: int|
        #![trigger r.board[c]]
        0 <= c < r.board.len() implies r.cell_is_claimed(c) by {
        assert(r.board[c] == moved.board[c]);
        if let Mark::Player(id) = moved.board[c] {
            assert(r.players[id - 1].current_position == moved.players[id
                - 1].current_position);
        }
    }
}

/// Resolving a basic step touches no player but the one that takes it and
/// those in the chain it displaces; it keeps a full session well formed unless
/// the chain is bombed back; and it empties the cell the stepping player left
/// unless a bomb sent that player back onto it.
pub proof fn lemma_basic_resolution(
    s: GameState,
    key: Identity,
    p: int,
    dest: int,
    offset: int,
    depth: nat,
)
    requires
        s.well_formed(),
        is_basic_offset(offset, s.side()),
        0 <= p < s.players.len(),
        0 <= dest < s.cells(),
        dest != s.players[p].current_position,
        s.chain_ends(dest, offset, depth),
        s.chain_is_simple(dest, offset, depth),
        !s.in_chain(p, dest, offset, depth),
    ensures
        s.resolve(key, p, dest, offset, depth).state.same_session_as(s),
        s.resolve(key, p, dest, offset, depth).state.players.len() == s.players.len(),
        s.resolve(key, p, dest, offset, depth).state.board.len() == s.board.len(),
        forall|u: int|
            0 <= u < s.players.len() && u != p && !s.in_chain(u, dest, offset, depth) ==> s.resolve(
                key,
                p,
                dest,
                offset,
                depth,
            ).state.players[u] == s.players[u],
        s.full() && !s.chain_is_bombed_back(dest, offset, depth) ==> s.resolve(
            key,
            p,
            dest,
            offset,
            depth,
        ).state.well_formed(),
        !(!s.occupied(dest) && s.returns_to_own_cell(p, dest)) ==> s.resolve(
            key,
            p,
            dest,
            offset,
            depth,
        ).state.board[s.players[p].current_position as int] == Mark::Empty,
        s.occupied(dest) ==> {
            let r = s.resolve(key, p, dest, offset, depth).state;
            &&& r.players[p].current_position == dest
            &&& r.board[dest] == Mark::Player(s.players[p].id)
        },
    decreases depth,
{
    lemma_well_formed_in_bounds(s);
    let r = s.resolve(key, p, dest, offset, depth).state;
    if !s.occupied(dest) {
        lemma_landed_frame(s, key, p, dest);
        if s.full() {
            lemma_landed_keeps_well_formed(s, key, p, dest);
        }
    } else {
        let other = s.occupant(dest);
        let next = s.thrown_to(dest, offset);
        vstd::arithmetic::div_mod::lemma_mod_bound(dest + 2 * offset, s.cells());
        assert(s.players[other].current_position == dest);
        assert(next != dest) by {
            lemma_chain_cells_differ(s, dest, offset, 0, 1);
            assert(s.chain_cell(dest, offset, 1) == s.thrown_to(
                s.chain_cell(dest, offset, 0),
                offset,
            ));
        }
        let inner_key = s.players[other].player;
        let inner = s.resolve(inner_key, other, next, offset, (depth - 1) as nat).state;
        lemma_basic_resolution(s, inner_key, other, next, offset, (depth - 1) as nat);
        assert(r == inner.relocate(p, dest));
        assert(inner.players[p] == s.players[p]);
        assert forall|u: int|
            0 <= u < s.players.len() && u != p && !s.in_chain(
                u,
                dest,
                offset,
                depth,
            ) implies r.players[u] == s.players[u] by {
            assert(inner.players[u] == s.players[u]);
        }
        if s.full() && !s.chain_is_bombed_back(dest, offset, depth) {
            assert(inner.well_formed());
            assert(inner.board[dest] == Mark::Empty);
            lemma_relocate_keeps_well_formed(inner, p, dest);
        }
    }
}

/// The player that takes a basic step does not stand in the chain it
/// displaces.
proof fn lemma_stepper_not_in_chain(s: GameState, p: int, offset: int, k: nat, depth: nat)
    requires
        s.well_formed(),
        is_basic_offset(offset, s.side()),
        0 <= p < s.players.len(),
    ensures
        !s.in_chain(
            p,
            s.chain_cell(
                toroidal_index(s.players[p].current_position as int, offset, s.cells()),
                offset,
                k,
            ),
            offset,
            depth,
        ),
    decreases depth,
{
    lemma_well_formed_in_bounds(s);
    let origin = s.players[p].current_position as int;
    let dest = toroidal_index(origin, offset, s.cells());
    vstd::arithmetic::div_mod::lemma_mod_bound(origin + offset, s.cells());
    lemma_chain_misses_origin(s, origin, offset, k);
    lemma_chain_cell_closed_form(s, dest, offset, k);
    if depth > 0 {
        lemma_stepper_not_in_chain(s, p, offset, k + 1, (depth - 1) as nat);
    }
}

/// A basic step keeps a full session well formed, unless the chain it
/// displaces is bombed back.
///
/// The exception is real. Let player 1 stand on cell 0 and player 2 on its
/// home slot, cell 1, with the bomb on cell 3. Player 1 steps right: player 2
/// is thrown onto the bomb, is sent home, and comes down on cell 1, which the
/// step then gives to player 1.
pub proof fn lemma_step_keeps_well_formed(s: GameState, key: Identity, p: int, offset: int)
    requires
        s.well_formed(),
        s.full(),
        is_basic_offset(offset, s.side()),
        0 <= p < s.players.len(),
        !s.chain_is_bombed_back(
            toroidal_index(s.players[p].current_position as int, offset, s.cells()),
            offset,
            s.players.len(),
        ),
    ensures
        s.resolve(
            key,
            p,
            toroidal_index(s.players[p].current_position as int, offset, s.cells()),
            offset,
            s.players.len(),
        ).state.well_formed(),
{
    lemma_step_is_sound(s, p, offset);
    let dest = toroidal_index(s.players[p].current_position as int, offset, s.cells());
    lemma_basic_resolution(s, key, p, dest, offset, s.players.len());
}

/// What a basic step by player `p` needs for `lemma_basic_resolution`.
proof fn lemma_step_is_sound(s: GameState, p: int, offset: int)
    requires
        s.well_formed(),
        is_basic_offset(offset, s.side()),
        0 <= p < s.players.len(),
    ensures
        ({
            let dest = toroidal_index(s.players[p].current_position as int, offset, s.cells());
            &&& 0 <= dest < s.cells()
            &&& dest != s.players[p].current_position
            &&& s.chain_ends(dest, offset, s.players.len())
            &&& s.chain_is_simple(dest, offset, s.players.len())
            &&& !s.in_chain(p, dest, offset, s.players.len())
        }),
{
    lemma_well_formed_in_bounds(s);
    let origin = s.players[p].current_position as int;
    let dest = toroidal_index(origin, offset, s.cells());
    vstd::arithmetic::div_mod::lemma_mod_bound(origin + offset, s.cells());
    lemma_chain_misses_origin(s, origin, offset, 0);
    lemma_chain_ends(s, p, offset);
    lemma_ending_chain_is_simple(s, dest, offset, 0, s.players.len());
    lemma_stepper_not_in_chain(s, p, offset, 0, s.players.len());
}

/// Where the chain that a basic step displaces is bombed back, some player of
/// the chain ends up standing on a cell that does not carry its mark. The
/// player is returned.
proof fn lemma_bombed_back_resolution(
    s: GameState,
    key: Identity,
    p: int,
    dest: int,
    offset: int,
    depth: nat,
) -> (victim: int)
    requires
        s.well_formed(),
        is_basic_offset(offset, s.side()),
        0 <= p < s.players.len(),
        0 <= dest < s.cells(),
        dest != s.players[p].current_position,
        s.chain_ends(dest, offset, depth),
        s.chain_is_simple(dest, offset, depth),
        !s.in_chain(p, dest, offset, depth),
        s.chain_is_bombed_back(dest, offset, depth),
    ensures
        0 <= victim < s.players.len(),
        victim != p,
        s.in_chain(victim, dest, offset, depth),
        ({
            let r = s.resolve(key, p, dest, offset, depth).state;
            &&& 0 <= r.players[victim].current_position < s.cells()
            &&& r.board[r.players[victim].current_position as int] != Mark::Player(
                r.players[victim].id,
            )
        }),
    decreases depth,
{
    lemma_well_formed_in_bounds(s);
    let other = s.occupant(dest);
    let next = s.thrown_to(dest, offset);
    vstd::arithmetic::div_mod::lemma_mod_bound(dest + 2 * offset, s.cells());
    assert(s.players[other].current_position == dest);
    assert(next != dest) by {
        lemma_chain_cells_differ(s, dest, offset, 0, 1);
        assert(s.chain_cell(dest, offset, 1) == s.thrown_to(s.chain_cell(dest, offset, 0), offset));
    }
    let inner_key = s.players[other].player;
    let inner = s.resolve(inner_key, other, next, offset, (depth - 1) as nat).state;
    lemma_basic_resolution(s, inner_key, other, next, offset, (depth - 1) as nat);
    let r = s.resolve(key, p, dest, offset, depth).state;
    assert(r == inner.relocate(p, dest));
    assert(inner.players[p] == s.players[p]);
    assert(s.players[p].id == p + 1);
    if s.occupied(next) {
        let victim = lemma_bombed_back_resolution(
            s,
            inner_key,
            other,
            next,
            offset,
            (depth - 1) as nat,
        );
        assert(r.players[victim] == inner.players[victim]);
        assert(inner.players[victim].id == s.players[victim].id) by {
            lemma_resolution_keeps_ids(s, inner_key, other, next, offset, (depth - 1) as nat);
        }
        assert(s.players[victim].id == victim + 1);
        victim
    } else {
        assert(inner == s.bombed(other, next));
        assert(r.players[other] == inner.players[other]);
        assert(s.players[other].id == other + 1);
        other
    }
}

/// Resolving an attempt changes no player's id or identity.
pub proof fn lemma_resolution_keeps_ids(
    s: GameState,
    key: Identity,
    p: int,
    dest: int,
    offset: int,
    depth: nat,
)
    requires
        s.well_formed(),
        0 <= p < s.players.len(),
        0 <= dest < s.cells(),
    ensures
        s.resolve(key, p, dest, offset, depth).state.players.len() == s.players.len(),
        forall|u: int|
            0 <= u < s.players.len() ==> {
                &&& (#[trigger] s.resolve(key, p, dest, offset, depth).state.players[u]).id
                    == s.players[u].id
                &&& s.resolve(key, p, dest, offset, depth).state.players[u].player
                    == s.players[u].player
                &&& s.resolve(key, p, dest, offset, depth).state.players[u].score
                    == s.players[u].score
            },
    decreases depth,
{
    lemma_well_formed_in_bounds(s);
    if s.occupied(dest) {
        let other = s.occupant(dest);
        if is_basic_offset(offset, s.side()) {
            if depth > 0 {
                let next = toroidal_index(
                    s.players[other].current_position as int,
                    2 * offset,
                    s.cells(),
                );
                vstd::arithmetic::div_mod::lemma_mod_bound(
                    s.players[other].current_position + 2 * offset,
                    s.cells(),
                );
                lemma_resolution_keeps_ids(
                    s,
                    s.players[other].player,
                    other,
                    next,
                    offset,
                    (depth - 1) as nat,
                );
            }
        }
    }
}

/// The exception of `lemma_step_keeps_well_formed` is exact: where the chain
/// that a basic step displaces is bombed back, the session is left with a
/// player on a cell that carries another player's mark.
pub proof fn lemma_bombed_back_breaks_well_formed(
    s: GameState,
    key: Identity,
    p: int,
    offset: int,
)
    requires
        s.well_formed(),
        is_basic_offset(offset, s.side()),
        0 <= p < s.players.len(),
        s.chain_is_bombed_back(
            toroidal_index(s.players[p].current_position as int, offset, s.cells()),
            offset,
            s.players.len(),
        ),
    ensures
        !s.resolve(
            key,
            p,
            toroidal_index(s.players[p].current_position as int, offset, s.cells()),
            offset,
            s.players.len(),
        ).state.well_formed(),
{
    lemma_step_is_sound(s, p, offset);
    let dest = toroidal_index(s.players[p].current_position as int, offset, s.cells());
    lemma_basic_resolution(s, key, p, dest, offset, s.players.len());
    let victim = lemma_bombed_back_resolution(s, key, p, dest, offset, s.players.len());
}

/// A basic step into a cell on which another player stands never blocks:
/// the stepping player ends on that cell, the cell carries its mark, and the
/// cell it came from is empty. So the two cells never both keep what they
/// held.
pub proof fn lemma_basic_push_never_blocks(s: GameState, key: Identity, p: int, offset: int)
    requires
        s.well_formed(),
        is_basic_offset(offset, s.side()),
        0 <= p < s.players.len(),
        s.occupied(toroidal_index(s.players[p].current_position as int, offset, s.cells())),
    ensures
        ({
            let origin = s.players[p].current_position as int;
            let dest = toroidal_index(origin, offset, s.cells());
            let r = s.resolve(key, p, dest, offset, s.players.len()).state;
            &&& r.players[p].current_position == dest
            &&& r.board[dest] == Mark::Player(s.players[p].id)
            &&& r.board[dest] != s.board[dest]
            &&& r.board[origin] == Mark::Empty
            &&& r.board[origin] != s.board[origin]
        }),
{
    lemma_step_is_sound(s, p, offset);
    let dest = toroidal_index(s.players[p].current_position as int, offset, s.cells());
    lemma_basic_resolution(s, key, p, dest, offset, s.players.len());
}

/// A player of a chain that ends does not stand in it a second time
/// further on.
proof fn lemma_not_in_chain_later(
    s: GameState,
    dest: int,
    offset: int,
    k: nat,
    a: nat,
    depth: nat,
)
    requires
        s.consistent(),
        is_basic_offset(offset, s.side()),
        0 <= dest < s.cells(),
        k < a,
        a + depth - k <= s.players.len(),
        s.occupied(s.chain_cell(dest, offset, k)),
        s.chain_ends(s.chain_cell(dest, offset, a), offset, depth),
    ensures
        !s.in_chain(
            s.occupant(s.chain_cell(dest, offset, k)),
            s.chain_cell(dest, offset, a),
            offset,
            depth,
        ),
    decreases depth,
{
    lemma_consistent_in_bounds(s);
    lemma_chain_cell_closed_form(s, dest, offset, k);
    lemma_chain_cell_closed_form(s, dest, offset, a);
    if s.occupied(s.chain_cell(dest, offset, a)) {
        lemma_chain_cells_differ(s, dest, offset, k, a);
        assert(s.chain_cell(dest, offset, a + 1) == s.thrown_to(
            s.chain_cell(dest, offset, a),
            offset,
        ));
        lemma_not_in_chain_later(s, dest, offset, k, a + 1, (depth - 1) as nat);
    }
}

/// No player stands twice in a chain that ends within the number of
/// players, whatever cell it starts on.
proof fn lemma_ending_chain_is_simple(s: GameState, dest: int, offset: int, k: nat, depth: nat)
    requires
        s.consistent(),
        is_basic_offset(offset, s.side()),
        0 <= dest < s.cells(),
        depth <= s.players.len(),
        s.chain_ends(s.chain_cell(dest, offset, k), offset, depth),
    ensures
        s.chain_is_simple(s.chain_cell(dest, offset, k), offset, depth),
    decreases depth,
{
    if s.occupied(s.chain_cell(dest, offset, k)) && depth > 0 {
        assert(s.chain_cell(dest, offset, k + 1) == s.thrown_to(
            s.chain_cell(dest, offset, k),
            offset,
        ));
        lemma_not_in_chain_later(s, dest, offset, k, k + 1, (depth - 1) as nat);
        lemma_ending_chain_is_simple(s, dest, offset, k + 1, (depth - 1) as nat);
    }
}

/// A basic push never blocks, whatever cell it is made into: where another
/// player stands on the cell and the pushing player does not itself stand in
/// the chain that is set off, the chain comes to an end, each of its players
/// is thrown on once, and the pushing player ends on the cell, which carries
/// its mark, while the cell it came from is empty.
pub proof fn lemma_basic_push_resolves(s: GameState, key: Identity, p: int, dest: int, offset: int)
    requires
        s.well_formed(),
        is_basic_offset(offset, s.side()),
        0 <= p < s.players.len(),
        0 <= dest < s.cells(),
        s.occupied(dest),
        !s.in_chain(p, dest, offset, s.players.len()),
    ensures
        s.chain_ends(dest, offset, s.players.len()),
        s.chain_is_simple(dest, offset, s.players.len()),
        ({
            let origin = s.players[p].current_position as int;
            let r = s.resolve(key, p, dest, offset, s.players.len()).state;
            &&& r.players[p].current_position == dest
            &&& r.board[dest] == Mark::Player(s.players[p].id)
            &&& r.board[dest] != s.board[dest]
            &&& r.board[origin] == Mark::Empty
            &&& r.board[origin] != s.board[origin]
        }),
{
    lemma_well_formed_in_bounds(s);
    crate::chain::lemma_chain_ends_past_a_bystander(s, p, dest, offset);
    lemma_ending_chain_is_simple(s, dest, offset, 0, s.players.len());
    lemma_basic_resolution(s, key, p, dest, offset, s.players.len());
}

/// A power push keeps a full session well formed.
pub proof fn lemma_push_keeps_well_formed(s: GameState, key: Identity, p: int, offset: int)
    requires
        s.well_formed(),
        s.full(),
        is_power_offset(offset, s.side()),
        0 <= p < s.players.len(),
    ensures
        s.resolve(
            key,
            p,
            toroidal_index(s.players[p].current_position as int, offset, s.cells()),
            offset,
            s.players.len(),
        ).state.well_formed(),
        s.resolve(
            key,
            p,
            toroidal_index(s.players[p].current_position as int, offset, s.cells()),
            offset,
            s.players.len(),
        ).state.same_session_as(s),
{
    lemma_well_formed_in_bounds(s);
    let n = s.cells();
    let origin = s.players[p].current_position as int;
    let dest = toroidal_index(origin, offset, n);
    vstd::arithmetic::div_mod::lemma_mod_bound(origin + offset, n);
    if !s.occupied(dest) {
        lemma_landed_frame(s, key, p, dest);
        lemma_landed_keeps_well_formed(s, key, p, dest);
    } else {
        let other = s.occupant(dest);
        let aside = toroidal_index(dest, single_step(offset, s.side()), n);
        vstd::arithmetic::div_mod::lemma_mod_bound(dest + single_step(offset, s.side()), n);
        assert(s.players[other].current_position == dest);
        assert(dest != origin) by {
            assert(0 < offset < n || -n < offset < 0);
            if offset > 0 {
                vstd::arithmetic::div_mod::lemma_small_mod(offset as nat, n as nat);
            } else {
                vstd::arithmetic::div_mod::lemma_fundamental_div_mod_converse(
                    offset,
                    n,
                    -1,
                    offset + n,
                );
            }
            vstd::arithmetic::div_mod::lemma_small_mod(origin as nat, n as nat);
            vstd::arithmetic::div_mod::lemma_mod_equivalence(origin + offset, origin, n);
            assert(origin + offset - origin == offset);
        }
        if s.board[aside] == Mark::Empty {
            lemma_relocate_keeps_well_formed(s, other, aside);
            let stepped = s.relocate(other, aside);
            assert(stepped.players[p] == s.players[p]);
            assert(aside != dest);
            assert(stepped.board[dest] == Mark::Empty);
            lemma_relocate_keeps_well_formed(stepped, p, dest);
        }
    }
}

/// What a scan for the first player on the way finds is a cell of the
/// stretch scanned, with a player on it.
pub proof fn lemma_first_in_way(s: GameState, at: int, direction: int, lo: int, hi: int)
    ensures
        s.first_in_way(at, direction, lo, hi) matches Some(cell) ==> {
            &&& lo <= cell < hi
            &&& s.occupied(cell)
            &&& direction > 0 ==> cell >= at
            &&& direction < 0 ==> cell <= at
        },
    decreases
        (if direction > 0 {
            if at < hi {
                hi - at
            } else {
                0
            }
        } else {
            if at >= lo {
                at - lo + 1
            } else {
                0
            }
        }),
{
    if !(direction == 0 || at < lo || at >= hi) && !s.occupied(at) {
        lemma_first_in_way(s, at + direction, direction, lo, hi);
    }
}

/// Taking a player's charge away keeps a session consistent.
pub proof fn lemma_discharged_keeps_consistent(s: GameState, p: int)
    requires
        s.consistent(),
        0 <= p < s.players.len(),
    ensures
        s.discharged(p).consistent(),
{
    let r = s.discharged(p);
    assert forall|i: int|
        #![trigger r.players[i]]
        0 <= i < r.players.len() implies r.player_is_listed(i) by {
        assert(r.players[i].id == s.players[i].id);
        assert(r.players[i].current_position == s.players[i].current_position);
    }
    assert forall|c: int|
        #![trigger r.board[c]]
        0 <= c < r.board.len() implies r.cell_is_claimed(c) by {
        if let Mark::Player(id) = s.board[c] {
            assert(r.players[id - 1].current_position == s.players[id - 1].current_position);
        }
    }
}

/// Taking a player's charge away keeps a session well formed.
pub proof fn lemma_discharged_keeps_well_formed(s: GameState, p: int)
    requires
        s.well_formed(),
        0 <= p < s.players.len(),
    ensures
        s.discharged(p).well_formed(),
{
    let r = s.discharged(p);
    assert forall|i: int|
        #![trigger r.players[i]]
        0 <= i < r.players.len() implies {
        &&& r.player_is_placed(i)
        &&& r.players[i].current_position == s.players[i].current_position
        &&& r.players[i].powerup_score == 0 || r.players[i].powerup_score
            == s.players[i].powerup_score
    } by {
        assert(r.players[i].id == s.players[i].id);
        assert(r.players[i].current_position == s.players[i].current_position);
    }
    assert forall|c: int|
        #![trigger r.board[c]]
        0 <= c < r.board.len() implies r.cell_is_claimed(c) by {
        if let Mark::Player(id) = s.board[c] {
            assert(r.players[id - 1].current_position == s.players[id - 1].current_position);
        }
    }
}

/// Spending a charge on a power push keeps a full session well formed,
/// whoever is hit and wherever that player lands.
pub proof fn lemma_power_keeps_well_formed(s: GameState, p: int, direction: int)
    requires
        s.well_formed(),
        s.full(),
        is_basic_offset(direction, s.side()),
        0 <= p < s.players.len(),
    ensures
        s.power_used(p, direction).state.well_formed(),
{
    lemma_well_formed_in_bounds(s);
    let from = s.players[p].current_position as int;
    lemma_first_in_way(
        s,
        from + direction,
        direction,
        s.lane_start(from, direction),
        s.lane_end(from, direction),
    );
    crate::geometry::lemma_row_bounds(from, s.side());
    match s.power_target(p, direction) {
        Some(cell) => {
            let target = s.occupant(cell);
            let offset = crate::constants::POWERUP_SCORE * direction;
            lemma_push_keeps_well_formed(s, s.players[target].player, target, offset);
            let pushed = s.resolve(
                s.players[target].player,
                target,
                toroidal_index(s.players[target].current_position as int, offset, s.cells()),
                offset,
                s.players.len(),
            ).state;
            lemma_discharged_keeps_well_formed(pushed, p);
        },
        None => {
            lemma_discharged_keeps_well_formed(s, p);
        },
    }
}

/// A power push whose target cannot land changes nothing but the charge:
/// where the cell the target is pushed onto holds a player and the cell one
/// step further is not empty, every player stays where it is, every cell
/// keeps its mark, and no report is made.
pub proof fn lemma_blocked_push_changes_nothing(s: GameState, p: int, direction: int, cell: int)
    requires
        s.well_formed(),
        is_basic_offset(direction, s.side()),
        0 <= p < s.players.len(),
        s.power_target(p, direction) == Some(cell),
        ({
            let offset = crate::constants::POWERUP_SCORE * direction;
            let dest = toroidal_index(cell, offset, s.cells());
            &&& s.occupied(dest)
            &&& s.board[toroidal_index(dest, direction, s.cells())] != Mark::Empty
        }),
    ensures
        s.power_used(p, direction).state == s.discharged(p),
        s.power_used(p, direction).events == Seq::<crate::events::GameEvent>::empty(),
        s.power_used(p, direction).state.board == s.board,
        forall|u: int|
            0 <= u < s.players.len() ==> (#[trigger] s.power_used(
                p,
                direction,
            ).state.players[u]).current_position == s.players[u].current_position,
{
    lemma_well_formed_in_bounds(s);
    let from = s.players[p].current_position as int;
    lemma_first_in_way(
        s,
        from + direction,
        direction,
        s.lane_start(from, direction),
        s.lane_end(from, direction),
    );
    crate::geometry::lemma_row_bounds(from, s.side());
    let target = s.occupant(cell);
    let offset = crate::constants::POWERUP_SCORE * direction;
    let dest = toroidal_index(cell, offset, s.cells());
    vstd::arithmetic::div_mod::lemma_mod_bound(cell + offset, s.cells());
    assert(s.players[target].current_position == cell);
    let other = s.occupant(dest);
    assert(s.players[other].current_position == dest);
    assert(single_step(offset, s.side()) == direction);
}

/// A power push leaves the player that makes it where it stands, unless it
/// stands on the very cell its target is pushed onto.
pub proof fn lemma_power_leaves_the_pusher(s: GameState, p: int, direction: int)
    requires
        s.well_formed(),
        is_basic_offset(direction, s.side()),
        0 <= p < s.players.len(),
    ensures
        s.power_used(p, direction).state.players[p].powerup_score == 0,
        match s.power_target(p, direction) {
            Some(cell) => toroidal_index(
                cell,
                crate::constants::POWERUP_SCORE * direction,
                s.cells(),
            ) != s.players[p].current_position ==> s.power_used(
                p,
                direction,
            ).state.players[p].current_position == s.players[p].current_position,
            None => s.power_used(p, direction).state == s.discharged(p),
        },
{
    lemma_well_formed_in_bounds(s);
    let from = s.players[p].current_position as int;
    lemma_first_in_way(
        s,
        from + direction,
        direction,
        s.lane_start(from, direction),
        s.lane_end(from, direction),
    );
    crate::geometry::lemma_row_bounds(from, s.side());
    match s.power_target(p, direction) {
        Some(cell) => {
            let target = s.occupant(cell);
            let offset = crate::constants::POWERUP_SCORE * direction;
            let dest = toroidal_index(cell, offset, s.cells());
            vstd::arithmetic::div_mod::lemma_mod_bound(cell + offset, s.cells());
            assert(s.players[target].current_position == cell);
            assert(target != p);
            let pushed = s.resolve(
                s.players[target].player,
                target,
                dest,
                offset,
                s.players.len(),
            ).state;
            lemma_resolution_keeps_ids(
                s,
                s.players[target].player,
                target,
                dest,
                offset,
                s.players.len(),
            );
            if dest != from {
                if s.occupied(dest) {
                    let other = s.occupant(dest);
                    assert(s.players[other].current_position == dest);
                    let aside = toroidal_index(dest, single_step(offset, s.side()), s.cells());
                    vstd::arithmetic::div_mod::lemma_mod_bound(
                        dest + single_step(offset, s.side()),
                        s.cells(),
                    );
                    assert(pushed.players[p] == s.players[p]);
                } else {
                    assert(pushed.players[p] == s.players[p]);
                }
            }
        },
        None => {},
    }
}

} // verus!
