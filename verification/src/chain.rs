//! The chain of players that a basic step displaces: where its cells lie, and
//! why it always comes to an end.
use crate::geometry::toroidal_index;
use crate::movement::is_basic_offset;
use crate::state::{lemma_consistent_in_bounds, GameState};
use vstd::prelude::*;

verus! {

impl GameState {
    /// The `k`-th cell of the chain that starts on `dest`: each cell lies two
    /// steps after the one before.
    pub open spec fn chain_cell(self, dest: int, offset: int, k: nat) -> int
        decreases k,
    {
        if k == 0 {
            dest
        } else {
            self.thrown_to(self.chain_cell(dest, offset, (k - 1) as nat), offset)
        }
    }
}

/// Whether the numbers are the side length and cell count of a supported
/// board and a basic offset on it.
pub open spec fn on_supported_board(side: int, cells: int, offset: int) -> bool {
    &&& (side == 8 && cells == 64) || (side == 10 && cells == 100) || (side == 12 && cells == 144)
    &&& is_basic_offset(offset, side)
}

/// Twice `k` steps, as a number without a product of two unknowns in it.
proof fn lemma_steps_scaled(side: int, cells: int, offset: int, k: int) -> (t: int)
    requires
        on_supported_board(side, cells, offset),
    ensures
        t == 2 * k * offset,
        offset == 1 ==> t == 2 * k,
        offset == -1 ==> t == -2 * k,
        offset == 8 ==> t == 16 * k,
        offset == -8 ==> t == -16 * k,
        offset == 10 ==> t == 20 * k,
        offset == -10 ==> t == -20 * k,
        offset == 12 ==> t == 24 * k,
        offset == -12 ==> t == -24 * k,
{
    let t = 2 * k * offset;
    assert(offset == 1 ==> t == 2 * k) by (nonlinear_arith)
        requires
            t == 2 * k * offset,
    ;
    assert(offset == -1 ==> t == -2 * k) by (nonlinear_arith)
        requires
            t == 2 * k * offset,
    ;
    assert(offset == 8 ==> t == 16 * k) by (nonlinear_arith)
        requires
            t == 2 * k * offset,
    ;
    assert(offset == -8 ==> t == -16 * k) by (nonlinear_arith)
        requires
            t == 2 * k * offset,
    ;
    assert(offset == 10 ==> t == 20 * k) by (nonlinear_arith)
        requires
            t == 2 * k * offset,
    ;
    assert(offset == -10 ==> t == -20 * k) by (nonlinear_arith)
        requires
            t == 2 * k * offset,
    ;
    assert(offset == 12 ==> t == 24 * k) by (nonlinear_arith)
        requires
            t == 2 * k * offset,
    ;
    assert(offset == -12 ==> t == -24 * k) by (nonlinear_arith)
        requires
            t == 2 * k * offset,
    ;
    t
}

/// The `k`-th cell of a chain lies `2 * k` steps after its first.
pub proof fn lemma_chain_cell_closed_form(s: GameState, dest: int, offset: int, k: nat)
    requires
        on_supported_board(s.side(), s.cells(), offset),
        0 <= dest < s.cells(),
    ensures
        s.chain_cell(dest, offset, k) == (dest + 2 * k * offset) % s.cells(),
        0 <= s.chain_cell(dest, offset, k) < s.cells(),
    decreases k,
{
    let n = s.cells();
    if k == 0 {
        assert(2 * k * offset == 0) by (nonlinear_arith)
            requires
                k == 0,
        ;
        vstd::arithmetic::div_mod::lemma_small_mod(dest as nat, n as nat);
    } else {
        lemma_chain_cell_closed_form(s, dest, offset, (k - 1) as nat);
        let before = dest + 2 * (k - 1) * offset;
        assert(before + 2 * offset == dest + 2 * k * offset) by (nonlinear_arith)
            requires
                before == dest + 2 * (k - 1) * offset,
        ;
        vstd::arithmetic::div_mod::lemma_add_mod_noop(before, 2 * offset, n);
        vstd::arithmetic::div_mod::lemma_add_mod_noop(before % n, 2 * offset, n);
        vstd::arithmetic::div_mod::lemma_mod_twice(before, n);
        vstd::arithmetic::div_mod::lemma_mod_bound(dest + 2 * k * offset, n);
    }
}

/// An odd number of basic steps never leads back to where it began.
proof fn lemma_odd_steps_leave(side: int, cells: int, offset: int, k: int)
    requires
        on_supported_board(side, cells, offset),
        k >= 0,
    ensures
        (offset + 2 * k * offset) % cells != 0,
{
    let t = lemma_steps_scaled(side, cells, offset, k);
    if cells == 64 {
        assert((1 + 2 * k) % 64 != 0 && (-1 - 2 * k) % 64 != 0);
        assert((8 + 16 * k) % 64 != 0 && (-8 - 16 * k) % 64 != 0);
    } else if cells == 100 {
        assert((1 + 2 * k) % 100 != 0 && (-1 - 2 * k) % 100 != 0);
        assert((10 + 20 * k) % 100 != 0 && (-10 - 20 * k) % 100 != 0);
    } else {
        assert((1 + 2 * k) % 144 != 0 && (-1 - 2 * k) % 144 != 0);
        assert((12 + 24 * k) % 144 != 0 && (-12 - 24 * k) % 144 != 0);
    }
}

/// Fewer than half a side length of double steps never lead back to where
/// they began.
proof fn lemma_few_steps_leave(side: int, cells: int, offset: int, d: int)
    requires
        on_supported_board(side, cells, offset),
        1 <= d,
        2 * d < side,
    ensures
        (2 * d * offset) % cells != 0,
{
    let t = lemma_steps_scaled(side, cells, offset, d);
    assert(0 < t < cells || -cells < t < 0);
    if t > 0 {
        vstd::arithmetic::div_mod::lemma_small_mod(t as nat, cells as nat);
    } else {
        vstd::arithmetic::div_mod::lemma_fundamental_div_mod_converse(t, cells, -1, t + cells);
    }
}

/// A chain never comes back to the cell from which the step into it was
/// taken.
pub proof fn lemma_chain_misses_origin(s: GameState, origin: int, offset: int, k: nat)
    requires
        on_supported_board(s.side(), s.cells(), offset),
        0 <= origin < s.cells(),
    ensures
        s.chain_cell(toroidal_index(origin, offset, s.cells()), offset, k) != origin,
{
    let n = s.cells();
    let dest = toroidal_index(origin, offset, n);
    let t = 2 * k * offset;
    vstd::arithmetic::div_mod::lemma_mod_bound(origin + offset, n);
    lemma_chain_cell_closed_form(s, dest, offset, k);
    lemma_odd_steps_leave(s.side(), n, offset, k as int);
    if (dest + t) % n == origin {
        vstd::arithmetic::div_mod::lemma_add_mod_noop(origin + offset, t, n);
        vstd::arithmetic::div_mod::lemma_add_mod_noop(dest, t, n);
        vstd::arithmetic::div_mod::lemma_mod_twice(origin + offset, n);
        assert((dest + t) % n == (origin + offset + t) % n);
        vstd::arithmetic::div_mod::lemma_small_mod(origin as nat, n as nat);
        vstd::arithmetic::div_mod::lemma_mod_equivalence(origin + offset + t, origin, n);
        assert(origin + offset + t - origin == offset + t);
        assert(false);
    }
}

/// Two cells of a chain that lie fewer than half a side length apart are
/// different cells.
pub proof fn lemma_chain_cells_differ(s: GameState, dest: int, offset: int, i: nat, j: nat)
    requires
        on_supported_board(s.side(), s.cells(), offset),
        0 <= dest < s.cells(),
        i < j,
        2 * (j - i) < s.side(),
    ensures
        s.chain_cell(dest, offset, i) != s.chain_cell(dest, offset, j),
{
    let n = s.cells();
    let ti = 2 * i * offset;
    let tj = 2 * j * offset;
    lemma_chain_cell_closed_form(s, dest, offset, i);
    lemma_chain_cell_closed_form(s, dest, offset, j);
    lemma_few_steps_leave(s.side(), n, offset, j - i);
    assert(tj - ti == 2 * (j - i) * offset) by (nonlinear_arith)
        requires
            ti == 2 * i * offset,
            tj == 2 * j * offset,
    ;
    if (dest + ti) % n == (dest + tj) % n {
        vstd::arithmetic::div_mod::lemma_mod_equivalence(dest + tj, dest + ti, n);
        assert(dest + tj - (dest + ti) == tj - ti);
        assert(false);
    }
}

/// However many players stand on the first cells of the chain that a step
/// sets off, the player that takes the step is not among them, so they are
/// fewer than the players of the session.
pub proof fn lemma_chain_is_short(s: GameState, p: int, offset: int, k: nat)
    requires
        s.consistent(),
        is_basic_offset(offset, s.side()),
        0 <= p < s.players.len(),
        forall|j: nat|
            j < k ==> s.occupied(
                #[trigger] s.chain_cell(
                    toroidal_index(s.players[p].current_position as int, offset, s.cells()),
                    offset,
                    j,
                ),
            ),
    ensures
        k < s.players.len(),
{
    lemma_consistent_in_bounds(s);
    let n = s.cells();
    let count = s.players.len();
    let origin = s.players[p].current_position as int;
    let dest = toroidal_index(origin, offset, n);
    vstd::arithmetic::div_mod::lemma_mod_bound(origin + offset, n);
    if k >= count {
        let ids = Seq::new(count, |j: int| s.occupant(s.chain_cell(dest, offset, j as nat)));
        let others = vstd::set_lib::set_int_range(0, count as int).remove(p);
        assert forall|j: int| 0 <= j < count implies 0 <= #[trigger] ids[j] < count && ids[j] != p
            && s.players[ids[j]].current_position == s.chain_cell(dest, offset, j as nat) by {
            let cell = s.chain_cell(dest, offset, j as nat);
            lemma_chain_cell_closed_form(s, dest, offset, j as nat);
            assert(s.occupied(cell));
            lemma_chain_misses_origin(s, origin, offset, j as nat);
        }
        assert forall|i: int, j: int| 0 <= i < j < count implies ids[i] != ids[j] by {
            lemma_chain_cells_differ(s, dest, offset, i as nat, j as nat);
        }
        assert(ids.no_duplicates());
        ids.unique_seq_to_set();
        vstd::set_lib::lemma_int_range(0, count as int);
        assert(ids.to_set().subset_of(others)) by {
            assert forall|id: int| ids.to_set().contains(id) implies others.contains(id) by {
                let j = choose|j: int| 0 <= j < ids.len() && ids[j] == id;
                assert(0 <= ids[j] < count);
            }
        }
        vstd::set_lib::lemma_len_subset(ids.to_set(), others);
        assert(false);
    }
}

/// The chain that a basic step displaces ends within as many players as the
/// session has, counted from its `k`-th cell on, when the cells before are
/// all taken.
proof fn lemma_chain_ends_from(s: GameState, p: int, offset: int, k: nat)
    requires
        s.consistent(),
        is_basic_offset(offset, s.side()),
        0 <= p < s.players.len(),
        k <= s.players.len(),
        forall|j: nat|
            j < k ==> s.occupied(
                #[trigger] s.chain_cell(
                    toroidal_index(s.players[p].current_position as int, offset, s.cells()),
                    offset,
                    j,
                ),
            ),
    ensures
        s.chain_ends(
            s.chain_cell(
                toroidal_index(s.players[p].current_position as int, offset, s.cells()),
                offset,
                k,
            ),
            offset,
            (s.players.len() - k) as nat,
        ),
    decreases s.players.len() - k,
{
    let dest = toroidal_index(s.players[p].current_position as int, offset, s.cells());
    if s.occupied(s.chain_cell(dest, offset, k)) {
        lemma_chain_is_short(s, p, offset, k + 1);
        lemma_chain_ends_from(s, p, offset, k + 1);
    }
}

/// A basic step never sets off an endless chain of displacements: on a
/// consistent state the players thrown on by a step come to an end before
/// the session runs out of players.
pub proof fn lemma_chain_ends(s: GameState, p: int, offset: int)
    requires
        s.consistent(),
        is_basic_offset(offset, s.side()),
        0 <= p < s.players.len(),
    ensures
        s.chain_ends(
            toroidal_index(s.players[p].current_position as int, offset, s.cells()),
            offset,
            s.players.len(),
        ),
{
    lemma_chain_ends_from(s, p, offset, 0);
}

/// A chain that does not end within `depth` players has a player on each
/// of its first `depth + 1` cells.
proof fn lemma_endless_chain_is_taken(s: GameState, dest: int, offset: int, depth: nat, j: nat)
    requires
        !s.chain_ends(dest, offset, depth),
        j <= depth,
    ensures
        s.occupied(s.chain_cell(dest, offset, j)),
        !s.chain_ends(s.chain_cell(dest, offset, j), offset, (depth - j) as nat),
    decreases j,
{
    if j > 0 {
        lemma_endless_chain_is_taken(s, dest, offset, depth, (j - 1) as nat);
        let before = s.chain_cell(dest, offset, (j - 1) as nat);
        assert(s.chain_cell(dest, offset, j) == s.thrown_to(before, offset));
        assert(!s.chain_ends(before, offset, (depth - (j - 1)) as nat));
        assert(!s.chain_ends(s.thrown_to(before, offset), offset, (depth - j) as nat));
    }
}

/// The player on the `j`-th cell of a chain stands in the chain, when the
/// cells before are taken too.
proof fn lemma_in_chain_from(
    s: GameState,
    u: int,
    dest: int,
    offset: int,
    depth: nat,
    j: nat,
    a: nat,
)
    requires
        a <= j <= depth,
        forall|i: nat| i <= j ==> s.occupied(#[trigger] s.chain_cell(dest, offset, i)),
        s.occupant(s.chain_cell(dest, offset, j)) == u,
    ensures
        s.in_chain(u, s.chain_cell(dest, offset, a), offset, (depth - a) as nat),
    decreases j - a,
{
    assert(s.occupied(s.chain_cell(dest, offset, a)));
    if a < j {
        lemma_in_chain_from(s, u, dest, offset, depth, j, a + 1);
        assert(s.chain_cell(dest, offset, a + 1) == s.thrown_to(
            s.chain_cell(dest, offset, a),
            offset,
        ));
    }
}

/// Whatever cell a basic step is made into, the chain it sets off comes to
/// an end before the session runs out of players, as long as some player
/// stands outside the chain. The chain is endless only where every player of
/// the session stands in it: six players in one column of the largest board,
/// on every second row.
pub proof fn lemma_chain_ends_past_a_bystander(s: GameState, u: int, dest: int, offset: int)
    requires
        s.consistent(),
        is_basic_offset(offset, s.side()),
        0 <= dest < s.cells(),
        0 <= u < s.players.len(),
        !s.in_chain(u, dest, offset, s.players.len()),
    ensures
        s.chain_ends(dest, offset, s.players.len()),
{
    lemma_consistent_in_bounds(s);
    let count = s.players.len();
    if !s.chain_ends(dest, offset, count) {
        let ids = Seq::new(count, |j: int| s.occupant(s.chain_cell(dest, offset, j as nat)));
        let all = vstd::set_lib::set_int_range(0, count as int);
        assert forall|j: nat| j <= count implies s.occupied(
            #[trigger] s.chain_cell(dest, offset, j),
        ) by {
            lemma_endless_chain_is_taken(s, dest, offset, count, j);
        }
        assert forall|j: int| 0 <= j < count implies 0 <= #[trigger] ids[j] < count
            && s.players[ids[j]].current_position == s.chain_cell(dest, offset, j as nat) by {
            lemma_chain_cell_closed_form(s, dest, offset, j as nat);
            assert(s.occupied(s.chain_cell(dest, offset, j as nat)));
        }
        assert forall|i: int, j: int| 0 <= i < j < count implies ids[i] != ids[j] by {
            lemma_chain_cells_differ(s, dest, offset, i as nat, j as nat);
        }
        assert(ids.no_duplicates());
        ids.unique_seq_to_set();
        vstd::set_lib::lemma_int_range(0, count as int);
        assert(ids.to_set().subset_of(all)) by {
            assert forall|id: int| ids.to_set().contains(id) implies all.contains(id) by {
                let j = choose|j: int| 0 <= j < ids.len() && ids[j] == id;
                assert(0 <= ids[j] < count);
            }
        }
        vstd::set_lib::lemma_len_subset(ids.to_set(), all);
        vstd::set_lib::lemma_subset_equality(ids.to_set(), all);
        assert(all.contains(u));
        assert(ids.to_set().contains(u));
        let j = choose|j: int| 0 <= j < ids.len() && ids[j] == u;
        lemma_in_chain_from(s, u, dest, offset, count, j as nat, 0);
        assert(false);
    }
}

} // verus!
