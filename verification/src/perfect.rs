//! The generator of perfect mazes: a spanning tree grown from a random cell.

use crate::carver::{lemma_moves, unvisited_moves, unvisited_neighbors};
use crate::pairs::{
    lemma_bounded_set, lemma_full_set, lemma_open_pairs_border, lemma_open_pairs_closed,
    lemma_open_pairs_grow, open_pairs,
};
use crate::geometry::{lemma_cell_at, lemma_coordinates, lemma_step_towards, manhattan, side_towards};
use crate::graph::{
    lemma_reachable_monotone, lemma_reachable_step, lemma_reachable_sym, lemma_reachable_trans,
    lemma_walk_single,
};
use crate::lab::{lemma_lab_neighbor, Direction, Lab, LabTile, LabView};
use crate::random::pick_below;
use crate::routes::{lemma_closed_routes, lemma_graft_routes, lemma_pair_grafts, lemma_routes_stay};
use crate::walls::{lemma_closed_paired, lemma_pair_update, lemma_pairs_stay};
use std::collections::HashSet;
use vstd::prelude::*;

verus! {

broadcast use vstd::std_specs::hash::group_hash_axioms;

/// A set of cells that holds one cell and, with each cell, the cells next to it,
/// holds every cell.
pub proof fn lemma_grid_closed(m: LabView, visited: Set<usize>, start: usize, c: int)
    requires
        m.wf(),
        m.is_cell(start as int),
        visited.contains(start),
        forall|a: usize, d: Direction|
            visited.contains(a) && (#[trigger] m.neighbor(a as int, d)) is Some
                ==> visited.contains(m.neighbor(a as int, d).unwrap() as usize),
        m.is_cell(c),
    ensures
        visited.contains(c as usize),
    decreases manhattan(m.size as int, c, start as int),
{
    let size = m.size as int;
    if c != start {
        lemma_step_towards(size, c, start as int);
        let d = side_towards(size, c, start as int);
        let b = m.neighbor(c, d).unwrap();
        lemma_lab_neighbor(m, c, d);
        lemma_coordinates(size, c);
        lemma_coordinates(size, start as int);
        lemma_grid_closed(m, visited, start, b);
        assert(m.neighbor(b as usize as int, d.spec_opposite()) is Some);
    }
}

/// The frontier entries for the moves from `b` to the cells next to it that are not
/// visited: `b`, that cell, and the side of `b` it lies beyond.
pub open spec fn entries_from(m: LabView, visited: Set<usize>, b: usize) -> Seq<
    (usize, usize, Direction),
> {
    let moves = unvisited_moves(m, visited, b as int);
    Seq::new(moves.len(), |i: int| (b, moves[i].0, moves[i].1))
}

/// The frontier without its entry at position `k`, the last entry moved into its place.
pub open spec fn without_entry(frontier: Seq<(usize, usize, Direction)>, k: int) -> Seq<
    (usize, usize, Direction),
> {
    frontier.update(k, frontier.last()).drop_last()
}

/// Adds to the frontier an entry for each cell next to `b` that is not visited.
fn push_entries(
    frontier: &mut Vec<(usize, usize, Direction)>,
    lab: &Lab,
    visited: &HashSet<usize>,
    b: usize,
)
    requires
        lab@.wf(),
    ensures
        final(frontier)@ == old(frontier)@ + entries_from(lab@, visited@, b),
{
    let moves = unvisited_neighbors(lab, visited, b);
    let ghost entries = entries_from(lab@, visited@, b);
    let mut i: usize = 0;
    while i < moves.len()
        invariant
            i <= moves@.len(),
            moves@ == unvisited_moves(lab@, visited@, b as int),
            entries == entries_from(lab@, visited@, b),
            frontier@ == old(frontier)@ + entries.take(i as int),
        decreases moves@.len() - i,
    {
        let (cell, side) = moves[i];
        frontier.push((b, cell, side));
        i = i + 1;
        assert(frontier@ =~= old(frontier)@ + entries.take(i as int));
    }
    assert(entries.take(i as int) =~= entries);
}

/// One step of the generator: takes the entry that `pick` selects out of the
/// frontier, the one at position `pick` modulo its length, the last entry moving
/// into its place. If the entry's unknown cell has been visited meanwhile, that is
/// all. Otherwise the wall between its two cells is removed, the unknown cell is
/// marked visited, and an entry for each cell next to it that is not visited is
/// added to the frontier. On an empty frontier nothing happens.
pub fn frontier_step(
    lab: &mut Lab,
    visited: &mut HashSet<usize>,
    frontier: &mut Vec<(usize, usize, Direction)>,
    pick: usize,
)
    requires
        old(lab)@.wf(),
    ensures
        final(lab)@.wf(),
        old(frontier)@.len() == 0 ==> final(lab)@ == old(lab)@ && final(visited)@ == old(visited)@
            && final(frontier)@ == old(frontier)@,
        old(frontier)@.len() > 0 ==> {
            let k = pick as int % old(frontier)@.len() as int;
            let entry = old(frontier)@[k];
            let rest = without_entry(old(frontier)@, k);
            if old(visited)@.contains(entry.1) {
                &&& final(lab)@ == old(lab)@
                &&& final(visited)@ == old(visited)@
                &&& final(frontier)@ == rest
            } else {
                &&& final(lab)@ == old(lab)@.with_wall_pair(entry.0 as int, entry.2, false)
                &&& final(visited)@ == old(visited)@.insert(entry.1)
                &&& final(frontier)@ == rest + entries_from(
                    final(lab)@,
                    final(visited)@,
                    entry.1,
                )
            }
        },
{
    if frontier.len() == 0 {
        return ;
    }
    let k = pick % frontier.len();
    let (known, unknown, side) = frontier.swap_remove(k);
    if visited.contains(&unknown) {
        return ;
    }
    lab.set_wall_pair(known, side, false);
    visited.insert(unknown);
    push_entries(frontier, lab, visited, unknown);
}

/// What holds while the generator runs from `start`: walls are recorded alike on
/// both tiles and stand all around the border; every visited cell can be reached
/// from `start`, every other cell has all its walls; there is one open wall pair
/// less than visited cells; every entry of the frontier leads from a visited cell
/// to a cell next to it, and there is an entry for each such pair whose second cell
/// is not visited.
pub open spec fn growing(
    m: LabView,
    visited: Set<usize>,
    frontier: Seq<(usize, usize, Direction)>,
    start: usize,
) -> bool {
    &&& m.wf()
    &&& m.paired()
    &&& m.routes_unique()
    &&& border_closed(m)
    &&& visited.finite()
    &&& visited.contains(start)
    &&& forall|v: usize| #[trigger]
        visited.contains(v) ==> m.is_cell(v as int) && m.reachable(start as int, v as int)
    &&& forall|c: int|
        m.is_cell(c) && !visited.contains(c as usize) ==> #[trigger] m.tiles[c]
            == LabTile::walled()
    &&& open_pairs(m) + 1 == visited.len()
    &&& forall|k: int|
        0 <= k < frontier.len() ==> {
            let entry = #[trigger] frontier[k];
            visited.contains(entry.0) && m.neighbor(entry.0 as int, entry.2) == Some(
                entry.1 as int,
            )
        }
    &&& forall|a: usize, d: Direction|
        visited.contains(a) && (#[trigger] m.neighbor(a as int, d)) is Some && !visited.contains(
            m.neighbor(a as int, d).unwrap() as usize,
        ) ==> frontier.contains((a, m.neighbor(a as int, d).unwrap() as usize, d))
}

/// Every move from `b` has its entry among the entries made for `b`.
proof fn lemma_entries_complete(m: LabView, visited: Set<usize>, b: usize, d: Direction)
    requires
        m.wf(),
        m.neighbor(b as int, d) is Some,
        !visited.contains(m.neighbor(b as int, d).unwrap() as usize),
    ensures
        entries_from(m, visited, b).contains((b, m.neighbor(b as int, d).unwrap() as usize, d)),
{
    let t = crate::carver::move_through(m, visited, b as int, Direction::Top);
    let r = crate::carver::move_through(m, visited, b as int, Direction::Right);
    let u = crate::carver::move_through(m, visited, b as int, Direction::Bottom);
    let l = crate::carver::move_through(m, visited, b as int, Direction::Left);
    let moves = unvisited_moves(m, visited, b as int);
    let entries = entries_from(m, visited, b);
    let c = m.neighbor(b as int, d).unwrap() as usize;
    assert(moves == t + r + u + l);
    let i: int = match d {
        Direction::Top => 0,
        Direction::Right => t.len() as int,
        Direction::Bottom => (t.len() + r.len()) as int,
        Direction::Left => (t.len() + r.len() + u.len()) as int,
    };
    assert(moves[i] == (c, d));
    assert(entries[i] == (b, c, d));
}

/// Taking out an entry whose unknown cell is visited keeps what holds of the
/// generator.
pub proof fn lemma_growing_discard(
    m: LabView,
    visited: Set<usize>,
    frontier: Seq<(usize, usize, Direction)>,
    start: usize,
    k: int,
)
    requires
        growing(m, visited, frontier, start),
        0 <= k < frontier.len(),
        visited.contains(frontier[k].1),
    ensures
        growing(m, visited, without_entry(frontier, k), start),
{
    let rest = without_entry(frontier, k);
    let last = frontier.len() - 1;
    assert forall|i: int| 0 <= i < rest.len() implies {
        let entry = #[trigger] rest[i];
        visited.contains(entry.0) && m.neighbor(entry.0 as int, entry.2) == Some(entry.1 as int)
    } by {
        if i == k {
            assert(rest[i] == frontier[last]);
        } else {
            assert(rest[i] == frontier[i]);
        }
    }
    assert forall|a: usize, d: Direction|
        visited.contains(a) && (#[trigger] m.neighbor(a as int, d)) is Some && !visited.contains(
            m.neighbor(a as int, d).unwrap() as usize,
        ) implies rest.contains((a, m.neighbor(a as int, d).unwrap() as usize, d)) by {
        let entry = (a, m.neighbor(a as int, d).unwrap() as usize, d);
        assert(frontier.contains(entry));
        let i = choose|i: int| 0 <= i < frontier.len() && frontier[i] == entry;
        assert(i != k);
        if i == last {
            assert(rest[k] == entry);
        } else {
            assert(rest[i] == entry);
        }
    }
}

/// Connecting the unknown cell of an entry, if it is not visited, keeps what holds
/// of the generator and adds one visited cell.
pub proof fn lemma_growing_connect(
    m: LabView,
    visited: Set<usize>,
    frontier: Seq<(usize, usize, Direction)>,
    start: usize,
    k: int,
)
    requires
        growing(m, visited, frontier, start),
        0 <= k < frontier.len(),
        !visited.contains(frontier[k].1),
    ensures
        ({
            let entry = frontier[k];
            let after = m.with_wall_pair(entry.0 as int, entry.2, false);
            let seen = visited.insert(entry.1);
            &&& growing(
                after,
                seen,
                without_entry(frontier, k) + entries_from(after, seen, entry.1),
                start,
            )
            &&& seen.len() == visited.len() + 1
            &&& seen.len() <= m.tiles.len()
            &&& after.tiles.len() == m.tiles.len()
        }),
{
    let entry = frontier[k];
    let a = entry.0;
    let b = entry.1;
    let d = entry.2;
    let o = d.spec_opposite();
    let after = m.with_wall_pair(a as int, d, false);
    let seen = visited.insert(b);
    let rest = without_entry(frontier, k);
    let added = entries_from(after, seen, b);
    let next = rest + added;
    let last = frontier.len() - 1;
    assert(m.neighbor(a as int, d) == Some(b as int));
    lemma_lab_neighbor(m, a as int, d);
    lemma_pair_update(m, a as int, d, false);
    lemma_pairs_stay(m, after);
    assert(m.tiles[b as int] == LabTile::walled());
    assert(m.wall(b as int, o));
    assert(m.paired_at(a as int, d));
    assert(m.wall(a as int, d));
    lemma_open_pairs_grow(m, a as int, d);
    lemma_pair_grafts(m, a as int, d);
    lemma_graft_routes(m, after, a as int, b as int);
    lemma_bounded_set(seen, m.tiles.len());
    assert(after.step(a as int, b as int));
    lemma_reachable_step(after, a as int, b as int);
    assert forall|c: int, e: Direction|
        after.is_cell(c) && (#[trigger] after.neighbor(c, e)) is None implies after.wall(c, e) by {
        assert(m.neighbor(c, e) is None);
        assert(m.flag_kept_in_pair(after, c, e));
    }
    assert forall|v: usize| #[trigger] seen.contains(v) implies after.is_cell(v as int)
        && after.reachable(start as int, v as int) by {
        if v == b {
            lemma_reachable_monotone(m, after, start as int, a as int);
            lemma_reachable_trans(after, start as int, a as int, b as int);
        } else {
            lemma_reachable_monotone(m, after, start as int, v as int);
        }
    }
    assert forall|c: int| after.is_cell(c) && !seen.contains(c as usize) implies #[trigger]
        after.tiles[c] == LabTile::walled() by {
        assert(c != a && c != b);
        assert(after.tiles[c] == m.tiles[c]);
        assert(m.tiles[c] == LabTile::walled());
    }
    lemma_moves(after, seen, b as int);
    assert forall|i: int| 0 <= i < next.len() implies {
        let e = #[trigger] next[i];
        seen.contains(e.0) && after.neighbor(e.0 as int, e.2) == Some(e.1 as int)
    } by {
        if i < rest.len() {
            assert(next[i] == rest[i]);
            if i == k {
                assert(rest[i] == frontier[last]);
            } else {
                assert(rest[i] == frontier[i]);
            }
            let e = next[i];
            assert(m.neighbor(e.0 as int, e.2) == after.neighbor(e.0 as int, e.2));
        } else {
            let j = i - rest.len();
            assert(next[i] == added[j]);
            let mv = unvisited_moves(after, seen, b as int)[j];
            assert(added[j] == (b, mv.0, mv.1));
        }
    }
    assert forall|x: usize, e: Direction|
        seen.contains(x) && (#[trigger] after.neighbor(x as int, e)) is Some && !seen.contains(
            after.neighbor(x as int, e).unwrap() as usize,
        ) implies next.contains((x, after.neighbor(x as int, e).unwrap() as usize, e)) by {
        let y = after.neighbor(x as int, e).unwrap() as usize;
        let wanted = (x, y, e);
        if x == b {
            lemma_entries_complete(after, seen, b, e);
            let j = choose|j: int| 0 <= j < added.len() && added[j] == wanted;
            assert(next[rest.len() + j] == wanted);
        } else {
            assert(m.neighbor(x as int, e) == after.neighbor(x as int, e));
            assert(frontier.contains(wanted));
            let i = choose|i: int| 0 <= i < frontier.len() && frontier[i] == wanted;
            assert(i != k);
            if i == last {
                assert(rest[k] == wanted);
                assert(next[k] == wanted);
            } else {
                assert(rest[i] == wanted);
                assert(next[i] == wanted);
            }
        }
    }
}

/// Once the frontier is empty every cell has been visited: every cell can be reached
/// from every cell, and there is one open wall pair less than cells.
pub proof fn lemma_growing_done(m: LabView, visited: Set<usize>, start: usize)
    requires
        growing(m, visited, Seq::<(usize, usize, Direction)>::empty(), start),
    ensures
        m.connected(),
        open_pairs(m) == m.tiles.len() - 1,
{
    let n = m.tiles.len();
    let frontier = Seq::<(usize, usize, Direction)>::empty();
    assert forall|a: usize, d: Direction|
        visited.contains(a) && (#[trigger] m.neighbor(a as int, d)) is Some
        implies visited.contains(m.neighbor(a as int, d).unwrap() as usize) by {
        let b = m.neighbor(a as int, d).unwrap() as usize;
        if !visited.contains(b) {
            assert(frontier.contains((a, b, d)));
        }
    }
    assert forall|v: usize| visited.contains(v) <==> v < n by {
        if v < n {
            lemma_grid_closed(m, visited, start, v as int);
        }
    }
    lemma_full_set(visited, n);
    assert forall|a: int, b: int| m.is_cell(a) && m.is_cell(b) implies #[trigger] m.reachable(
        a,
        b,
    ) by {
        assert(visited.contains(a as usize));
        assert(visited.contains(b as usize));
        lemma_reachable_sym(m, start as int, a);
        lemma_reachable_trans(m, a, start as int, b);
    }
}

/// Removing a wall on the border changes that flag alone: walls stay recorded alike
/// on both tiles, every cell stays reachable from every cell, and no wall pair opens.
pub proof fn lemma_border_opened(m: LabView, c: int, d: Direction)
    requires
        m.wf(),
        m.is_cell(c),
        m.neighbor(c, d) is None,
    ensures
        m.with_wall(c, d, false).wf(),
        m.with_wall(c, d, false).size == m.size,
        m.paired() ==> m.with_wall(c, d, false).paired(),
        m.connected() ==> m.with_wall(c, d, false).connected(),
        m.routes_unique() ==> m.with_wall(c, d, false).routes_unique(),
        open_pairs(m.with_wall(c, d, false)) == open_pairs(m),
        !m.with_wall(c, d, false).wall(c, d),
        forall|x: int, e: Direction|
            m.is_cell(x) && !(x == c && e == d) ==> #[trigger] m.with_wall(c, d, false).wall(x, e)
                == m.wall(x, e),
{
    let m2 = m.with_wall(c, d, false);
    lemma_open_pairs_border(m, c, d);
    if m.paired() {
        assert forall|x: int, e: Direction| #[trigger] m2.paired_at(x, e) by {
            assert(m.paired_at(x, e));
            if m.neighbor(x, e) is Some {
                lemma_lab_neighbor(m, x, e);
            }
        }
    }
    assert(m2.at_least_as_open(m));
    if m.routes_unique() {
        lemma_routes_stay(m, m2);
    }
    if m.connected() {
        assert forall|a: int, b: int| m2.is_cell(a) && m2.is_cell(b) implies #[trigger]
            m2.reachable(a, b) by {
            assert(m.reachable(a, b));
            lemma_reachable_monotone(m, m2, a, b);
        }
    }
}

/// Walls stand all around the border.
pub open spec fn border_closed(m: LabView) -> bool {
    forall|c: int, d: Direction|
        m.is_cell(c) && (#[trigger] m.neighbor(c, d)) is None ==> m.wall(c, d)
}

/// The border is closed but above `entrance` and below `exit`.
pub open spec fn ends_opened(m: LabView, entrance: int, exit: int) -> bool {
    forall|c: int, d: Direction|
        m.is_cell(c) && (#[trigger] m.neighbor(c, d)) is None ==> (m.wall(c, d) <==> !(c
            == entrance && d == Direction::Top) && !(c == exit && d == Direction::Bottom))
}

/// What the generator leaves: walls recorded alike on both tiles, every cell
/// reachable from every cell by one route only, one open wall pair less than
/// cells, and the border closed but above `entrance`, a cell of the first row, and
/// below `exit`, a cell of the last row.
pub open spec fn is_perfect_maze(m: LabView, entrance: int, exit: int) -> bool {
    &&& m.wf()
    &&& m.paired()
    &&& m.connected()
    &&& m.routes_unique()
    &&& open_pairs(m) == m.tiles.len() - 1
    &&& 0 <= entrance < m.size
    &&& m.tiles.len() - m.size <= exit < m.tiles.len()
    &&& ends_opened(m, entrance, exit)
}

/// Closes every wall and starts the generator at `start`: `start` is the one visited
/// cell, and the frontier holds an entry for each cell next to it. Returns the set of
/// visited cells and the frontier.
pub fn plant(lab: &mut Lab, start: usize) -> (r: (HashSet<usize>, Vec<(usize, usize, Direction)>))
    requires
        old(lab)@.wf(),
    ensures
        final(lab)@.same_shape(old(lab)@),
        final(lab)@.all_closed(),
        r.0@ == Set::<usize>::empty().insert(start),
        r.1@ == entries_from(final(lab)@, r.0@, start),
        final(lab)@.is_cell(start as int) ==> growing(final(lab)@, r.0@, r.1@, start),
{
    lab.close_all();
    let ghost n = lab@.tiles.len();
    let mut visited: HashSet<usize> = HashSet::new();
    let mut frontier: Vec<(usize, usize, Direction)> = Vec::new();
    visited.insert(start);
    push_entries(&mut frontier, lab, &visited, start);
    proof {
        let m = lab@;
        assert(visited@ =~= Set::<usize>::empty().insert(start));
        assert(frontier@ =~= entries_from(m, visited@, start));
        if m.is_cell(start as int) {
            lemma_closed_paired(m);
            lemma_closed_routes(m);
            lemma_walk_single(m, start);
            lemma_open_pairs_closed(m, n);
            lemma_moves(m, visited@, start as int);
            assert forall|k: int| 0 <= k < frontier@.len() implies {
                let entry = #[trigger] frontier@[k];
                visited@.contains(entry.0) && m.neighbor(entry.0 as int, entry.2) == Some(
                    entry.1 as int,
                )
            } by {
                let mv = unvisited_moves(m, visited@, start as int)[k];
                assert(frontier@[k] == (start, mv.0, mv.1));
            }
            assert forall|a: usize, d: Direction|
                visited@.contains(a) && (#[trigger] m.neighbor(a as int, d)) is Some
                    && !visited@.contains(
                    m.neighbor(a as int, d).unwrap() as usize,
                ) implies frontier@.contains((a, m.neighbor(a as int, d).unwrap() as usize, d)) by {
                lemma_entries_complete(m, visited@, start, d);
            }
            assert forall|c: int, d: Direction|
                m.is_cell(c) && (#[trigger] m.neighbor(c, d)) is None implies m.wall(c, d) by {
                assert(m.tiles[c] == LabTile::walled());
            }
        }
    }
    (visited, frontier)
}

/// Removes the wall above `entrance` and the wall below `exit`, on their own tiles
/// only. An index that is no cell is passed over.
pub fn open_ends(lab: &mut Lab, entrance: usize, exit: usize)
    requires
        old(lab)@.wf(),
    ensures
        final(lab)@ == old(lab)@.with_wall(entrance as int, Direction::Top, false).with_wall(
            exit as int,
            Direction::Bottom,
            false,
        ),
        final(lab)@.wf(),
{
    let n = lab.cell_count();
    if entrance < n {
        lab.put_wall(entrance, Direction::Top, false);
    }
    if exit < n {
        lab.put_wall(exit, Direction::Bottom, false);
    }
}

/// Opening the border above a cell of the first row and below a cell of the last
/// row of a perfect maze with a closed border leaves a perfect maze with these ends.
pub proof fn lemma_ends_opened(m: LabView, entrance: int, exit: int)
    requires
        m.wf(),
        m.paired(),
        m.connected(),
        m.routes_unique(),
        border_closed(m),
        open_pairs(m) == m.tiles.len() - 1,
        0 <= entrance < m.size,
        m.tiles.len() - m.size <= exit < m.tiles.len(),
    ensures
        is_perfect_maze(
            m.with_wall(entrance, Direction::Top, false).with_wall(exit, Direction::Bottom, false),
            entrance,
            exit,
        ),
{
    let s = m.size as int;
    let n = m.tiles.len() as int;
    let offset = exit - (n - s);
    assert(s <= n) by (nonlinear_arith)
        requires
            n == s * s,
            s >= 1,
    ;
    lemma_cell_at(s, 0, entrance);
    assert(0 * s + entrance == entrance);
    assert(exit == (s - 1) * s + offset) by (nonlinear_arith)
        requires
            n == s * s,
            exit == n - s + offset,
    ;
    lemma_cell_at(s, s - 1, offset);
    assert(m.neighbor(entrance, Direction::Top) is None);
    assert(m.neighbor(exit, Direction::Bottom) is None);
    lemma_border_opened(m, entrance, Direction::Top);
    let opened = m.with_wall(entrance, Direction::Top, false);
    assert(opened.neighbor(exit, Direction::Bottom) is None);
    lemma_border_opened(opened, exit, Direction::Bottom);
    let last = opened.with_wall(exit, Direction::Bottom, false);
    assert forall|c: int, d: Direction|
        last.is_cell(c) && (#[trigger] last.neighbor(c, d)) is None implies (last.wall(c, d) <==> !(c
        == entrance && d == Direction::Top) && !(c == exit && d == Direction::Bottom)) by {
        assert(m.neighbor(c, d) is None);
        assert(opened.neighbor(c, d) is None);
        if !(c == exit && d == Direction::Bottom) {
            assert(last.wall(c, d) == opened.wall(c, d));
        }
        if !(c == entrance && d == Direction::Top) {
            assert(opened.wall(c, d) == m.wall(c, d));
        }
    }
}

/// Closes every wall and carves a labyrinth in which every cell can be reached from
/// every other by exactly one route: from a start cell chosen at random, walls
/// toward cells not yet visited are removed in random order. Then the border is
/// opened above a random cell of the first row and below a random cell of the last
/// row; the two cells are returned, entrance first.
pub fn generate_perfect_maze(lab: &mut Lab) -> (ends: (usize, usize))
    requires
        old(lab)@.wf(),
    ensures
        final(lab)@.size == old(lab)@.size,
        is_perfect_maze(final(lab)@, ends.0 as int, ends.1 as int),
{
    let mut rng = rand::thread_rng();
    let size = lab.size();
    let n = lab.cell_count();
    proof {
        let s = size as int;
        assert(1 <= s <= n) by (nonlinear_arith)
            requires
                n == s * s,
                s >= 1,
        ;
    }
    let start = pick_below(&mut rng, n);
    let (mut visited, mut frontier) = plant(lab, start);
    proof {
        lemma_bounded_set(visited@, n as nat);
    }
    while frontier.len() > 0
        invariant
            n == lab@.tiles.len(),
            lab@.size == old(lab)@.size,
            growing(lab@, visited@, frontier@, start),
            visited@.len() <= n,
        decreases n - visited@.len(), frontier@.len(),
    {
        let pick = pick_below(&mut rng, frontier.len());
        let ghost m = lab@;
        let ghost seen = visited@;
        let ghost entries = frontier@;
        frontier_step(lab, &mut visited, &mut frontier, pick);
        proof {
            let k = pick as int % entries.len() as int;
            if seen.contains(entries[k].1) {
                lemma_growing_discard(m, seen, entries, start, k);
            } else {
                lemma_growing_connect(m, seen, entries, start, k);
            }
        }
    }
    let entrance = pick_below(&mut rng, size);
    let exit = n - size + pick_below(&mut rng, size);
    proof {
        assert(frontier@ =~= Seq::<(usize, usize, Direction)>::empty());
        lemma_growing_done(lab@, visited@, start);
        lemma_ends_opened(lab@, entrance as int, exit as int);
    }
    open_ends(lab, entrance, exit);
    (entrance, exit)
}

} // verus!
