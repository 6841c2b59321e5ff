//! Rows, columns, neighbors and distances of cells numbered row by row.

use crate::lab::Direction;
use vstd::arithmetic::div_mod::{lemma_fundamental_div_mod, lemma_fundamental_div_mod_converse};
use vstd::prelude::*;

verus! {

/// Row of cell `c` in a square grid of side `size`, cells numbered row by row.
pub open spec fn row(size: int, c: int) -> int {
    c / size
}

/// Column of cell `c` in a square grid of side `size`.
pub open spec fn col(size: int, c: int) -> int {
    c % size
}

/// Whether `c` is the index of a cell of the grid of side `size`.
pub open spec fn in_grid(size: int, c: int) -> bool {
    0 <= c < size * size
}

/// The cell next to `c` on side `d`, if that side is not on the border of the grid.
pub open spec fn neighbor_of(size: int, c: int, d: Direction) -> Option<int> {
    match d {
        Direction::Top => if row(size, c) > 0 {
            Some(c - size)
        } else {
            None
        },
        Direction::Right => if col(size, c) < size - 1 {
            Some(c + 1)
        } else {
            None
        },
        Direction::Bottom => if row(size, c) < size - 1 {
            Some(c + size)
        } else {
            None
        },
        Direction::Left => if col(size, c) > 0 {
            Some(c - 1)
        } else {
            None
        },
    }
}

/// The distance between two numbers.
pub open spec fn abs_diff(a: int, b: int) -> int {
    if a >= b {
        a - b
    } else {
        b - a
    }
}

/// Manhattan distance between two cells.
pub open spec fn manhattan(size: int, a: int, b: int) -> int {
    abs_diff(col(size, a), col(size, b)) + abs_diff(row(size, a), row(size, b))
}

/// A cell of the grid has a row and a column below `size`, and is determined by them.
pub proof fn lemma_coordinates(size: int, c: int)
    requires
        size >= 1,
        in_grid(size, c),
    ensures
        0 <= row(size, c) < size,
        0 <= col(size, c) < size,
        c == row(size, c) * size + col(size, c),
{
    lemma_fundamental_div_mod(c, size);
    let q = c / size;
    let r = c % size;
    assert(0 <= r < size) by {
        vstd::arithmetic::div_mod::lemma_mod_pos_bound(c, size);
    }
    assert(size * q == q * size) by (nonlinear_arith);
    assert(q >= 0) by (nonlinear_arith)
        requires
            c == q * size + r,
            0 <= r < size,
            c >= 0,
            size >= 1,
    ;
    assert(q < size) by (nonlinear_arith)
        requires
            c == q * size + r,
            0 <= r < size,
            c < size * size,
            size >= 1,
    ;
}

/// A row and a column below `size` name a cell of the grid.
pub proof fn lemma_cell_at(size: int, r: int, k: int)
    requires
        size >= 1,
        0 <= r < size,
        0 <= k < size,
    ensures
        in_grid(size, r * size + k),
        row(size, r * size + k) == r,
        col(size, r * size + k) == k,
{
    lemma_fundamental_div_mod_converse(r * size + k, size, r, k);
    assert(0 <= r * size + k < size * size) by (nonlinear_arith)
        requires
            size >= 1,
            0 <= r < size,
            0 <= k < size,
    ;
}

/// Two cells with the same row and column are the same cell.
pub proof fn lemma_same_coordinates(size: int, a: int, b: int)
    requires
        size >= 1,
        in_grid(size, a),
        in_grid(size, b),
        row(size, a) == row(size, b),
        col(size, a) == col(size, b),
    ensures
        a == b,
{
    lemma_coordinates(size, a);
    lemma_coordinates(size, b);
}

/// Where a cell has a neighbor on side `d`, the neighbor is a cell of the grid one
/// row or column away, and the cell is its neighbor on the opposite side.
pub proof fn lemma_neighbor(size: int, c: int, d: Direction)
    requires
        size >= 1,
        in_grid(size, c),
        neighbor_of(size, c, d) is Some,
    ensures
        in_grid(size, neighbor_of(size, c, d).unwrap()),
        neighbor_of(size, c, d).unwrap() != c,
        neighbor_of(size, neighbor_of(size, c, d).unwrap(), d.spec_opposite()) == Some(c),
        row(size, neighbor_of(size, c, d).unwrap()) == row(size, c) + match d {
            Direction::Top => -1int,
            Direction::Bottom => 1int,
            _ => 0int,
        },
        col(size, neighbor_of(size, c, d).unwrap()) == col(size, c) + match d {
            Direction::Left => -1int,
            Direction::Right => 1int,
            _ => 0int,
        },
{
    lemma_coordinates(size, c);
    let r = row(size, c);
    let k = col(size, c);
    let b = neighbor_of(size, c, d).unwrap();
    match d {
        Direction::Top => {
            assert(b == (r - 1) * size + k) by (nonlinear_arith)
                requires
                    b == c - size,
                    c == r * size + k,
            ;
            lemma_cell_at(size, r - 1, k);
        },
        Direction::Right => {
            assert(b == r * size + (k + 1));
            lemma_cell_at(size, r, k + 1);
        },
        Direction::Bottom => {
            assert(b == (r + 1) * size + k) by (nonlinear_arith)
                requires
                    b == c + size,
                    c == r * size + k,
            ;
            lemma_cell_at(size, r + 1, k);
        },
        Direction::Left => {
            assert(b == r * size + (k - 1));
            lemma_cell_at(size, r, k - 1);
        },
    }
}

/// The side of `a` on which a step brings it closer to `b`: along the row first,
/// then along the column.
pub open spec fn side_towards(size: int, a: int, b: int) -> Direction {
    if col(size, a) < col(size, b) {
        Direction::Right
    } else if col(size, a) > col(size, b) {
        Direction::Left
    } else if row(size, a) < row(size, b) {
        Direction::Bottom
    } else {
        Direction::Top
    }
}

/// From a cell `a` other than `b`, the neighbor on the side towards `b` exists and
/// is one step closer to `b`.
pub proof fn lemma_step_towards(size: int, a: int, b: int)
    requires
        size >= 1,
        in_grid(size, a),
        in_grid(size, b),
        a != b,
    ensures
        neighbor_of(size, a, side_towards(size, a, b)) is Some,
        in_grid(size, neighbor_of(size, a, side_towards(size, a, b)).unwrap()),
        manhattan(size, neighbor_of(size, a, side_towards(size, a, b)).unwrap(), b) == manhattan(
            size,
            a,
            b,
        ) - 1,
{
    lemma_coordinates(size, a);
    lemma_coordinates(size, b);
    if row(size, a) == row(size, b) && col(size, a) == col(size, b) {
        lemma_same_coordinates(size, a, b);
    }
    lemma_neighbor(size, a, side_towards(size, a, b));
}

} // verus!
