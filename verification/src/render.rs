//! What to show in each cell of a picture of the labyrinth.

use std::collections::HashSet;
use vstd::prelude::*;

verus! {

broadcast use vstd::std_specs::hash::group_hash_axioms;

/// What a picture of the labyrinth shows inside a cell.
#[derive(Clone, Copy, Debug, PartialEq, Eq, Structural)]
pub enum Marker {
    /// The entrance.
    Entrance,
    /// The exit.
    Exit,
    /// A cell of the solution.
    Path,
    /// The cell where a generator stands, with the colour to show it in.
    Current(u8),
    /// A cell that a generator has visited.
    Visited,
    /// Nothing.
    Empty,
}

/// The marker of `cell`: the first that applies of entrance, exit, cell of the path,
/// current cell, visited cell, and else nothing.
pub open spec fn marker_of(
    cell: usize,
    entrance: usize,
    exit: usize,
    visited: Set<usize>,
    current: Option<(usize, u8)>,
    path: Option<Seq<usize>>,
) -> Marker {
    if cell == entrance {
        Marker::Entrance
    } else if cell == exit {
        Marker::Exit
    } else if path is Some && path.unwrap().contains(cell) {
        Marker::Path
    } else if current is Some && current.unwrap().0 == cell {
        Marker::Current(current.unwrap().1)
    } else if visited.contains(cell) {
        Marker::Visited
    } else {
        Marker::Empty
    }
}

/// Whether `cell` occurs in `path`.
pub fn on_path(path: &Vec<usize>, cell: usize) -> (found: bool)
    ensures
        found == path@.contains(cell),
{
    let mut i: usize = 0;
    while i < path.len()
        invariant
            i <= path@.len(),
            forall|k: int| 0 <= k < i ==> path@[k] != cell,
        decreases path@.len() - i,
    {
        if path[i] == cell {
            return true;
        }
        i = i + 1;
    }
    false
}

/// The marker to show in `cell`.
pub fn cell_marker(
    cell: usize,
    entrance: usize,
    exit: usize,
    visited: &HashSet<usize>,
    current_cell: Option<(usize, u8)>,
    shortest_path: Option<&Vec<usize>>,
) -> (marker: Marker)
    ensures
        marker == marker_of(
            cell,
            entrance,
            exit,
            visited@,
            current_cell,
            match shortest_path {
                Some(path) => Some(path@),
                None => None,
            },
        ),
{
    if cell == entrance {
        return Marker::Entrance;
    }
    if cell == exit {
        return Marker::Exit;
    }
    if let Some(path) = shortest_path {
        if on_path(path, cell) {
            return Marker::Path;
        }
    }
    if let Some((current, colour)) = current_cell {
        if cell == current {
            return Marker::Current(colour);
        }
    }
    if visited.contains(&cell) {
        Marker::Visited
    } else {
        Marker::Empty
    }
}

} // verus!
