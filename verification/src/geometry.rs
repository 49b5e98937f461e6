//! Arithmetic of cell indices on a board that wraps around at every edge.
use crate::state::{valid_mode_spec, Direction};
use vstd::prelude::*;

verus! {

/// The cell reached from `position` by `delta` on a board of `active_cells`
/// cells: their sum, reduced to the range of the board.
pub open spec fn toroidal_index(position: int, delta: int, active_cells: int) -> int {
    (position + delta) % active_cells
}

/// The cell reached from `position` by `delta`, wrapping around the board.
///
/// A sum that leaves the range of `i16` is a fault of the caller, not a
/// cell: the precondition rules it out.
pub fn advance(position: i16, delta: i16, active_cells: usize) -> (cell: usize)
    requires
        i16::MIN <= position + delta <= i16::MAX,
        0 < active_cells <= i16::MAX,
    ensures
        cell == toroidal_index(position as int, delta as int, active_cells as int),
        cell < active_cells,
{
    let sum: i32 = position as i32 + delta as i32;
    let cells: i32 = active_cells as i32;
    let rest: i32 = if sum < 0 {
        let below: i32 = (-sum) % cells;
        proof {
            lemma_negated_remainder(sum as int, cells as int);
        }
        if below == 0 {
            0
        } else {
            cells - below
        }
    } else {
        sum % cells
    };
    rest as usize
}

/// The remainder of a negative number, from that of its negation.
proof fn lemma_negated_remainder(x: int, n: int)
    requires
        x < 0,
        n > 0,
    ensures
        x % n == (if (-x) % n == 0 {
            0
        } else {
            n - (-x) % n
        }),
{
    let q = (-x) / n;
    let r = (-x) % n;
    assert(-x == n * q + r) by {
        vstd::arithmetic::div_mod::lemma_fundamental_div_mod(-x, n);
    }
    if r == 0 {
        assert(x == n * (-q)) by (nonlinear_arith)
            requires
                -x == n * q + r,
                r == 0,
        ;
        vstd::arithmetic::div_mod::lemma_fundamental_div_mod_converse(x, n, -q, 0);
    } else {
        assert(x == n * (-q - 1) + (n - r)) by (nonlinear_arith)
            requires
                -x == n * q + r,
        ;
        vstd::arithmetic::div_mod::lemma_fundamental_div_mod_converse(x, n, -q - 1, n - r);
    }
}

/// A step in any direction from any position ends on the board.
pub proof fn lemma_toroidal_closure(position: int, direction: Direction, side: int)
    requires
        side > 0,
    ensures
        0 <= toroidal_index(position, direction.offset_spec(side), side * side) < side * side,
{
    assert(side * side > 0) by (nonlinear_arith)
        requires
            side > 0,
    ;
    vstd::arithmetic::div_mod::lemma_mod_bound(
        position + direction.offset_spec(side),
        side * side,
    );
}

/// The row of a cell begins at or before the cell and ends after it, on the
/// board.
pub proof fn lemma_row_bounds(cell: int, side: int)
    requires
        side > 0,
        0 <= cell < side * side,
    ensures
        0 <= (cell / side) * side <= cell < (cell / side) * side + side <= side * side,
{
    let row = cell / side;
    vstd::arithmetic::div_mod::lemma_fundamental_div_mod(cell, side);
    vstd::arithmetic::div_mod::lemma_mod_bound(cell, side);
    assert(row * side == side * row) by (nonlinear_arith);
    assert(0 <= row < side) by (nonlinear_arith)
        requires
            side > 0,
            0 <= cell < side * side,
            cell == side * row + cell % side,
            0 <= cell % side < side,
    ;
    assert(row * side + side <= side * side) by (nonlinear_arith)
        requires
            0 <= row < side,
    ;
}

/// Whether a side length and a player count go together.
pub fn valid_mode(board_side_len: u8, max_players: u8) -> (ok: bool)
    ensures
        ok == valid_mode_spec(board_side_len, max_players),
{
    (board_side_len == 8 && max_players == 2) || (board_side_len == 10 && max_players == 4) || (
    board_side_len == 12 && max_players == 6)
}

/// The cell the king starts on: the upper left of the four cells round the
/// centre of the board.
pub open spec fn king_start(side: int) -> int {
    (side / 2 - 1) * side + (side / 2 - 1)
}

/// The cell the king starts on.
pub fn king_starting_position(board_side_len: u8) -> (cell: usize)
    requires
        board_side_len >= 2,
    ensures
        cell == king_start(board_side_len as int),
        cell < board_side_len * board_side_len,
{
    let side: usize = board_side_len as usize;
    let half: usize = side / 2 - 1;
    assert(half * side + half < side * side && half * side <= 255 * 255) by (nonlinear_arith)
        requires
            half < side,
            side <= 255,
    ;
    half * side + half
}

} // verus!
