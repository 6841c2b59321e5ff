//! The path carver: a winding main path from the entrance to the exit, then dead
//! ends until every cell is reached.

use crate::geometry::{lemma_coordinates, lemma_step_towards, manhattan, side_towards};
use crate::graph::{
    lemma_reachable_monotone, lemma_reachable_step, lemma_reachable_sym, lemma_reachable_trans,
    lemma_walk_single,
};
use crate::lab::{lemma_lab_neighbor, Direction, Lab, LabError, LabTile, LabView};
use crate::pairs::{
    lemma_bounded_set, lemma_full_set, lemma_open_pairs_closed, lemma_open_pairs_grow, open_pairs,
};
use crate::random::pick_below;
use crate::routes::{lemma_closed_routes, lemma_graft_routes, lemma_pair_grafts};
use crate::walls::{
    lemma_at_least_as_open_trans, lemma_changed_in_pairs_refl, lemma_changed_in_pairs_trans,
    lemma_closed_paired, lemma_pair_update, lemma_pairs_stay,
};
use std::collections::HashSet;
use vstd::prelude::*;

verus! {

broadcast use vstd::std_specs::hash::group_hash_axioms;

/// The move from `cell` through side `d`, if a cell lies beyond that side and is not
/// in `visited`: that cell and the side.
pub open spec fn move_through(m: LabView, visited: Set<usize>, cell: int, d: Direction) -> Seq<
    (usize, Direction),
> {
    match m.neighbor(cell, d) {
        Some(b) => if visited.contains(b as usize) {
            Seq::<(usize, Direction)>::empty()
        } else {
            seq![(b as usize, d)]
        },
        None => Seq::<(usize, Direction)>::empty(),
    }
}

/// The moves from `cell` to the cells next to it that are not in `visited`, whatever
/// walls stand between, in the order top, right, bottom, left.
pub open spec fn unvisited_moves(m: LabView, visited: Set<usize>, cell: int) -> Seq<
    (usize, Direction),
> {
    move_through(m, visited, cell, Direction::Top) + move_through(
        m,
        visited,
        cell,
        Direction::Right,
    ) + move_through(m, visited, cell, Direction::Bottom) + move_through(
        m,
        visited,
        cell,
        Direction::Left,
    )
}

/// Every move leads through the side it names to a cell that is not visited, and
/// there is a move wherever such a cell exists.
pub proof fn lemma_moves(m: LabView, visited: Set<usize>, cell: int)
    requires
        m.wf(),
    ensures
        unvisited_moves(m, visited, cell).len() <= 4,
        forall|k: int|
            0 <= k < unvisited_moves(m, visited, cell).len() ==> {
                let mv = #[trigger] unvisited_moves(m, visited, cell)[k];
                &&& m.neighbor(cell, mv.1) == Some(mv.0 as int)
                &&& !visited.contains(mv.0)
                &&& m.is_cell(cell)
                &&& m.is_cell(mv.0 as int)
            },
        forall|d: Direction|
            (#[trigger] m.neighbor(cell, d)) is Some && !visited.contains(
                m.neighbor(cell, d).unwrap() as usize,
            ) ==> unvisited_moves(m, visited, cell).len() > 0,
{
    let t = move_through(m, visited, cell, Direction::Top);
    let r = move_through(m, visited, cell, Direction::Right);
    let b = move_through(m, visited, cell, Direction::Bottom);
    let l = move_through(m, visited, cell, Direction::Left);
    let all = unvisited_moves(m, visited, cell);
    assert(all == t + r + b + l);
    if m.neighbor(cell, Direction::Top) is Some {
        lemma_lab_neighbor(m, cell, Direction::Top);
    }
    if m.neighbor(cell, Direction::Right) is Some {
        lemma_lab_neighbor(m, cell, Direction::Right);
    }
    if m.neighbor(cell, Direction::Bottom) is Some {
        lemma_lab_neighbor(m, cell, Direction::Bottom);
    }
    if m.neighbor(cell, Direction::Left) is Some {
        lemma_lab_neighbor(m, cell, Direction::Left);
    }
    assert forall|k: int| 0 <= k < all.len() implies {
        let mv = #[trigger] all[k];
        &&& m.neighbor(cell, mv.1) == Some(mv.0 as int)
        &&& !visited.contains(mv.0)
        &&& m.is_cell(cell)
        &&& m.is_cell(mv.0 as int)
    } by {
        if k < t.len() {
            assert(all[k] == t[k]);
        } else if k < t.len() + r.len() {
            assert(all[k] == r[k - t.len()]);
        } else if k < t.len() + r.len() + b.len() {
            assert(all[k] == b[k - t.len() - r.len()]);
        } else {
            assert(all[k] == l[k - t.len() - r.len() - b.len()]);
        }
    }
}

/// Adds to `moves` the move from `cell` through side `d`, if there is one.
fn push_move(
    lab: &Lab,
    visited: &HashSet<usize>,
    cell: usize,
    d: Direction,
    moves: &mut Vec<(usize, Direction)>,
)
    requires
        lab@.wf(),
    ensures
        final(moves)@ == old(moves)@ + move_through(lab@, visited@, cell as int, d),
{
    match lab.neighbor(cell, d) {
        Some(b) => {
            if !visited.contains(&b) {
                moves.push((b, d));
                assert(moves@ =~= old(moves)@ + move_through(lab@, visited@, cell as int, d));
            } else {
                assert(moves@ =~= old(moves)@ + move_through(lab@, visited@, cell as int, d));
            }
        },
        None => {
            assert(moves@ =~= old(moves)@ + move_through(lab@, visited@, cell as int, d));
        },
    }
}

/// The moves from `cell` to the cells next to it that are not in `visited`.
pub fn unvisited_neighbors(lab: &Lab, visited: &HashSet<usize>, cell: usize) -> (moves: Vec<
    (usize, Direction),
>)
    requires
        lab@.wf(),
    ensures
        moves@ == unvisited_moves(lab@, visited@, cell as int),
{
    let mut moves: Vec<(usize, Direction)> = Vec::new();
    push_move(lab, visited, cell, Direction::Top, &mut moves);
    push_move(lab, visited, cell, Direction::Right, &mut moves);
    push_move(lab, visited, cell, Direction::Bottom, &mut moves);
    push_move(lab, visited, cell, Direction::Left, &mut moves);
    assert(moves@ =~= unvisited_moves(lab@, visited@, cell as int));
    moves
}

/// `c` is the visited cell nearest to `target` in Manhattan distance, and of several
/// at that distance the one with the lowest index.
pub open spec fn is_closest(m: LabView, visited: Set<usize>, target: int, c: usize) -> bool {
    &&& m.is_cell(c as int)
    &&& visited.contains(c)
    &&& forall|v: usize|
        m.is_cell(v as int) && #[trigger] visited.contains(v) ==> {
            let dc = manhattan(m.size as int, c as int, target);
            let dv = manhattan(m.size as int, v as int, target);
            dc < dv || (dc == dv && c <= v)
        }
}

/// Some cell is in `visited`.
pub open spec fn some_cell_visited(m: LabView, visited: Set<usize>) -> bool {
    exists|v: usize| m.is_cell(v as int) && #[trigger] visited.contains(v)
}

/// The Manhattan distance between two cells.
fn distance(lab: &Lab, a: usize, b: usize) -> (d: usize)
    requires
        lab@.wf(),
        lab@.is_cell(a as int),
        lab@.is_cell(b as int),
    ensures
        d == manhattan(lab@.size as int, a as int, b as int),
{
    let size = lab.size();
    proof {
        lemma_coordinates(size as int, a as int);
        lemma_coordinates(size as int, b as int);
        assert(2 * size <= usize::MAX + 1) by (nonlinear_arith)
            requires
                size >= 1,
                size * size <= usize::MAX,
        ;
    }
    let ax = a % size;
    let ay = a / size;
    let bx = b % size;
    let by = b / size;
    let dx = if ax >= bx {
        ax - bx
    } else {
        bx - ax
    };
    let dy = if ay >= by {
        ay - by
    } else {
        by - ay
    };
    dx + dy
}

/// The visited cell nearest to `target`, of several the one with the lowest index;
/// none if `target` is no cell or no cell is visited.
pub fn closest_visited(lab: &Lab, visited: &HashSet<usize>, target: usize) -> (r: Option<usize>)
    requires
        lab@.wf(),
    ensures
        r is Some <==> lab@.is_cell(target as int) && some_cell_visited(lab@, visited@),
        r matches Some(c) ==> is_closest(lab@, visited@, target as int, c),
{
    let n = lab.cell_count();
    if target >= n {
        return None;
    }
    let mut best: Option<usize> = None;
    let mut best_distance: usize = 0;
    let mut c: usize = 0;
    while c < n
        invariant
            lab@.wf(),
            n == lab@.tiles.len(),
            target < n,
            c <= n,
            best is None ==> forall|v: usize| v < c ==> !visited@.contains(v),
            best matches Some(b) ==> {
                &&& b < c
                &&& visited@.contains(b)
                &&& best_distance == manhattan(lab@.size as int, b as int, target as int)
                &&& forall|v: usize|
                    v < c && #[trigger] visited@.contains(v) ==> {
                        let dv = manhattan(lab@.size as int, v as int, target as int);
                        best_distance < dv || (best_distance == dv && b <= v)
                    }
            },
        decreases n - c,
    {
        if visited.contains(&c) {
            let d = distance(lab, c, target);
            if best.is_none() || d < best_distance {
                best = Some(c);
                best_distance = d;
            }
        }
        c = c + 1;
    }
    proof {
        if best is None {
            if some_cell_visited(lab@, visited@) {
                let v = choose|v: usize| lab@.is_cell(v as int) && #[trigger] visited@.contains(v);
                assert(false);
            }
        }
    }
    best
}

/// The visited cell nearest to an unvisited cell has a neighbor that is not visited.
pub proof fn lemma_closest_has_move(m: LabView, visited: Set<usize>, target: usize, c: usize)
    requires
        m.wf(),
        m.is_cell(target as int),
        !visited.contains(target),
        is_closest(m, visited, target as int, c),
    ensures
        unvisited_moves(m, visited, c as int).len() > 0,
{
    let size = m.size as int;
    lemma_step_towards(size, c as int, target as int);
    let d = side_towards(size, c as int, target as int);
    let b = m.neighbor(c as int, d).unwrap();
    lemma_lab_neighbor(m, c as int, d);
    if visited.contains(b as usize) {
        assert(false);
    }
    lemma_moves(m, visited, c as int);
}

/// The move that `pick` selects among the moves from `cell`: the one at position
/// `pick` modulo their number.
pub open spec fn picked_move(m: LabView, visited: Set<usize>, cell: int, pick: usize) -> (
    usize,
    Direction,
) {
    let moves = unvisited_moves(m, visited, cell);
    moves[pick as int % moves.len() as int]
}

/// Takes the move that `pick` selects from `current` to a cell next to it that is
/// not visited: removes the wall between the two, marks the cell visited and returns
/// it. Where no such cell exists, nothing changes and none is returned.
pub fn extend_walk(lab: &mut Lab, visited: &mut HashSet<usize>, current: usize, pick: usize) -> (next:
    Option<usize>)
    requires
        old(lab)@.wf(),
    ensures
        final(lab)@.wf(),
        next is Some <==> unvisited_moves(old(lab)@, old(visited)@, current as int).len() > 0,
        next is None ==> final(lab)@ == old(lab)@ && final(visited)@ == old(visited)@,
        next matches Some(b) ==> {
            let mv = picked_move(old(lab)@, old(visited)@, current as int, pick);
            &&& b == mv.0
            &&& final(lab)@ == old(lab)@.with_wall_pair(current as int, mv.1, false)
            &&& final(visited)@ == old(visited)@.insert(b)
        },
{
    let moves = unvisited_neighbors(lab, visited, current);
    if moves.len() == 0 {
        return None;
    }
    let (b, d) = moves[pick % moves.len()];
    lab.set_wall_pair(current, d, false);
    visited.insert(b);
    Some(b)
}

/// One step of the main path: from `current` to a cell next to it that is not
/// visited, as `extend_walk` does; where there is none, a jump to the visited cell
/// nearest to `exit`, which changes nothing. Returns the cell to go on from.
pub fn main_path_step(
    lab: &mut Lab,
    visited: &mut HashSet<usize>,
    current: usize,
    exit: usize,
    pick: usize,
) -> (next: usize)
    requires
        old(lab)@.wf(),
    ensures
        final(lab)@.wf(),
        unvisited_moves(old(lab)@, old(visited)@, current as int).len() > 0 ==> {
            let mv = picked_move(old(lab)@, old(visited)@, current as int, pick);
            &&& next == mv.0
            &&& final(lab)@ == old(lab)@.with_wall_pair(current as int, mv.1, false)
            &&& final(visited)@ == old(visited)@.insert(next)
        },
        unvisited_moves(old(lab)@, old(visited)@, current as int).len() == 0 ==> {
            &&& final(lab)@ == old(lab)@
            &&& final(visited)@ == old(visited)@
            &&& if old(lab)@.is_cell(exit as int) && some_cell_visited(old(lab)@, old(visited)@) {
                is_closest(old(lab)@, old(visited)@, exit as int, next)
            } else {
                next == current
            }
        },
{
    match extend_walk(lab, visited, current, pick) {
        Some(b) => b,
        None => match closest_visited(lab, visited, exit) {
            Some(c) => c,
            None => current,
        },
    }
}

/// Cell `c` is the entrance or has at least one side without a wall.
pub open spec fn seeded(m: LabView, entrance: int, c: int) -> bool {
    m.is_cell(c) && (c == entrance || m.tiles[c].has_opening())
}

/// The cells that are the entrance or have at least one side without a wall.
pub open spec fn seeds_of(m: LabView, entrance: int) -> Set<usize> {
    Set::new(|c: usize| seeded(m, entrance, c as int))
}

/// What carving a main path from `entrance` to `exit` makes of a labyrinth: walls
/// are only removed, and only between cells and on both tiles; the exit can be
/// reached from the entrance, and so can every cell that lost a wall. Where every
/// wall stood before, the passages form a tree: between two cells there is at most
/// one route, and one wall pair less is open than there are cells with an opening,
/// the entrance counted with them.
pub open spec fn main_path_carved(old: LabView, new: LabView, entrance: int, exit: int) -> bool {
    &&& old.changed_in_pairs(new)
    &&& new.at_least_as_open(old)
    &&& new.reachable(entrance, exit)
    &&& forall|c: int|
        new.is_cell(c) && #[trigger] new.tiles[c] != old.tiles[c] ==> new.reachable(entrance, c)
    &&& old.all_closed() ==> new.routes_unique() && open_pairs(new) + 1 == seeds_of(
        new,
        entrance,
    ).len()
}

/// What holds while a walk is carved from `entrance` in the labyrinth `before`:
/// every visited cell is a cell that can be reached from the entrance, and every
/// changed cell is visited. Where every wall stood before, there is one open wall
/// pair less than visited cells, and every visited cell but the entrance has an
/// opening.
pub open spec fn walk_inv(before: LabView, now: LabView, visited: Set<usize>, entrance: usize) -> bool {
    &&& before.wf()
    &&& now.wf()
    &&& before.changed_in_pairs(now)
    &&& now.at_least_as_open(before)
    &&& visited.finite()
    &&& visited.contains(entrance)
    &&& forall|v: usize| #[trigger]
        visited.contains(v) ==> now.is_cell(v as int) && now.reachable(entrance as int, v as int)
    &&& forall|c: int|
        now.is_cell(c) && #[trigger] now.tiles[c] != before.tiles[c] ==> visited.contains(
            c as usize,
        )
    &&& before.all_closed() ==> {
        &&& now.routes_unique()
        &&& open_pairs(now) + 1 == visited.len()
        &&& forall|v: usize| #[trigger] visited.contains(v) ==> seeded(now, entrance as int, v as int)
    }
}

/// A cell with an opening keeps it when walls are only removed.
pub proof fn lemma_opening_stays(m1: LabView, m2: LabView, c: int)
    requires
        m2.at_least_as_open(m1),
        m1.is_cell(c),
        m1.tiles[c].has_opening(),
    ensures
        m2.tiles[c].has_opening(),
{
    assert(m2.wall(c, Direction::Top) ==> m1.wall(c, Direction::Top));
    assert(m2.wall(c, Direction::Right) ==> m1.wall(c, Direction::Right));
    assert(m2.wall(c, Direction::Bottom) ==> m1.wall(c, Direction::Bottom));
    assert(m2.wall(c, Direction::Left) ==> m1.wall(c, Direction::Left));
}

/// A move from a visited cell keeps what holds of a carved walk, and adds one cell
/// to the visited ones.
pub proof fn lemma_walk_move(
    before: LabView,
    now: LabView,
    visited: Set<usize>,
    entrance: usize,
    current: usize,
    pick: usize,
)
    requires
        walk_inv(before, now, visited, entrance),
        visited.contains(current),
        unvisited_moves(now, visited, current as int).len() > 0,
    ensures
        walk_inv(
            before,
            now.with_wall_pair(
                current as int,
                picked_move(now, visited, current as int, pick).1,
                false,
            ),
            visited.insert(picked_move(now, visited, current as int, pick).0),
            entrance,
        ),
        !visited.contains(picked_move(now, visited, current as int, pick).0),
        visited.insert(picked_move(now, visited, current as int, pick).0).len() == visited.len()
            + 1,
        visited.len() < now.tiles.len(),
{
    let moves = unvisited_moves(now, visited, current as int);
    let k = pick as int % moves.len() as int;
    let mv = moves[k];
    let b = mv.0;
    let d = mv.1;
    lemma_moves(now, visited, current as int);
    assert(now.neighbor(current as int, d) == Some(b as int));
    let after = now.with_wall_pair(current as int, d, false);
    let seen = visited.insert(b);
    lemma_pair_update(now, current as int, d, false);
    lemma_changed_in_pairs_trans(before, now, after);
    lemma_at_least_as_open_trans(after, now, before);
    assert(after.step(current as int, b as int));
    lemma_reachable_step(after, current as int, b as int);
    assert forall|v: usize| #[trigger] seen.contains(v) implies after.is_cell(v as int)
        && after.reachable(entrance as int, v as int) by {
        if v == b {
            lemma_reachable_monotone(now, after, entrance as int, current as int);
            lemma_reachable_trans(after, entrance as int, current as int, b as int);
        } else {
            lemma_reachable_monotone(now, after, entrance as int, v as int);
        }
    }
    assert forall|c: int|
        after.is_cell(c) && #[trigger] after.tiles[c] != before.tiles[c] implies seen.contains(
        c as usize,
    ) by {
        if c != current && c != b {
            assert(after.tiles[c] == now.tiles[c]);
        }
    }
    lemma_bounded_set(seen, now.tiles.len());
    if before.all_closed() {
        lemma_closed_paired(before);
        lemma_pairs_stay(before, now);
        assert(now.tiles[b as int] == before.tiles[b as int]);
        assert(before.tiles[b as int] == LabTile::walled());
        assert(now.paired_at(current as int, d));
        lemma_open_pairs_grow(now, current as int, d);
        lemma_pair_grafts(now, current as int, d);
        lemma_graft_routes(now, after, current as int, b as int);
        assert forall|v: usize| #[trigger] seen.contains(v) implies seeded(
            after,
            entrance as int,
            v as int,
        ) by {
            if v == b {
                assert(!after.wall(b as int, d.spec_opposite()));
            } else if v != entrance {
                assert(seeded(now, entrance as int, v as int));
                lemma_opening_stays(now, after, v as int);
            }
        }
    }
}

/// Where every wall stood before a walk was carved, the visited cells are the cells
/// that are the entrance or have an opening.
pub proof fn lemma_walk_seeds(before: LabView, now: LabView, visited: Set<usize>, entrance: usize)
    requires
        walk_inv(before, now, visited, entrance),
        before.all_closed(),
    ensures
        seeds_of(now, entrance as int) == visited,
{
    assert forall|c: usize| seeds_of(now, entrance as int).contains(c) implies visited.contains(
        c,
    ) by {
        if c != entrance {
            assert(before.tiles[c as int] == LabTile::walled());
            assert(now.tiles[c as int] != before.tiles[c as int]);
        }
    }
    assert(seeds_of(now, entrance as int) =~= visited);
}

/// Carves a winding path from `entrance` until `exit` is reached: from the current
/// cell to a cell next to it that was not visited, chosen at random, and where there
/// is none, on from the visited cell nearest to the exit.
pub fn generate_main_path(lab: &mut Lab, entrance: usize, exit: usize) -> (r: Result<(), LabError>)
    requires
        old(lab)@.wf(),
    ensures
        final(lab)@.wf(),
        r is Ok <==> old(lab)@.is_cell(entrance as int) && old(lab)@.is_cell(exit as int),
        r matches Err(e) ==> e == LabError::IndexOutOfRange && final(lab)@ == old(lab)@,
        r is Ok ==> main_path_carved(old(lab)@, final(lab)@, entrance as int, exit as int),
        r is Ok && old(lab)@.paired() ==> final(lab)@.paired(),
{
    let n = lab.cell_count();
    if entrance >= n || exit >= n {
        return Err(LabError::IndexOutOfRange);
    }
    let ghost before = lab@;
    let mut rng = rand::thread_rng();
    let mut visited: HashSet<usize> = HashSet::new();
    let mut current = entrance;
    visited.insert(entrance);
    proof {
        lemma_changed_in_pairs_refl(before);
        lemma_walk_single(before, entrance);
        assert(visited@ =~= Set::<usize>::empty().insert(entrance));
        if before.all_closed() {
            lemma_open_pairs_closed(before, n as nat);
            lemma_closed_routes(before);
        }
    }
    while !visited.contains(&exit)
        invariant
            n == before.tiles.len(),
            entrance < n,
            exit < n,
            walk_inv(before, lab@, visited@, entrance),
            visited@.contains(current),
        decreases
                2 * (n - visited@.len()) + (if unvisited_moves(
                    lab@,
                    visited@,
                    current as int,
                ).len() == 0 {
                    1int
                } else {
                    0int
                }),
    {
        proof {
            lemma_bounded_set(visited@, n as nat);
        }
        let count = unvisited_neighbors(lab, &visited, current).len();
        let pick = if count > 0 {
            pick_below(&mut rng, count)
        } else {
            0
        };
        let ghost now = lab@;
        let ghost seen = visited@;
        let next = main_path_step(lab, &mut visited, current, exit, pick);
        proof {
            if count > 0 {
                lemma_walk_move(before, now, seen, entrance, current, pick);
            } else {
                assert(some_cell_visited(now, seen));
                lemma_closest_has_move(now, seen, exit, next);
            }
        }
        current = next;
    }
    proof {
        lemma_pairs_stay_if(before, lab@);
        if before.all_closed() {
            lemma_walk_seeds(before, lab@, visited@, entrance);
        }
    }
    Ok(())
}

/// Walls recorded alike on both tiles stay so under changes made in pairs.
pub proof fn lemma_pairs_stay_if(m1: LabView, m2: LabView)
    requires
        m1.wf(),
        m1.changed_in_pairs(m2),
    ensures
        m1.paired() ==> m2.paired(),
{
    if m1.paired() {
        lemma_pairs_stay(m1, m2);
    }
}

/// Cell `c` can be reached in `now` from a cell that was the entrance or had an
/// opening in `before`.
pub open spec fn rooted(before: LabView, now: LabView, entrance: int, c: int) -> bool {
    exists|a: int| seeded(before, entrance, a) && #[trigger] now.reachable(a, c)
}

/// The cells that are the entrance or have at least one side without a wall.
pub fn opened_cells(lab: &Lab, entrance: usize) -> (cells: HashSet<usize>)
    ensures
        cells@.finite(),
        cells@ == seeds_of(lab@, entrance as int),
{
    let n = lab.cell_count();
    let mut cells: HashSet<usize> = HashSet::new();
    let mut c: usize = 0;
    while c < n
        invariant
            c <= n,
            n == lab@.tiles.len(),
            cells@.finite(),
            forall|v: usize| #[trigger]
                cells@.contains(v) <==> v < c && seeded(lab@, entrance as int, v as int),
        decreases n - c,
    {
        match lab.tile(c) {
            Ok(tile) => {
                if c == entrance || tile.is_open() {
                    cells.insert(c);
                }
            },
            Err(_) => {},
        }
        c = c + 1;
    }
    assert(cells@ =~= seeds_of(lab@, entrance as int));
    cells
}

/// What carving dead ends makes of a labyrinth: walls are only removed, and only
/// between cells and on both tiles; every cell can be reached from a cell that was
/// the entrance or had an opening before. Where walls were recorded alike on both
/// tiles, one wall pair was opened for each cell that was neither the entrance nor
/// had an opening, and if there was at most one route between two cells, there
/// still is.
pub open spec fn dead_ends_carved(old: LabView, new: LabView, entrance: int) -> bool {
    &&& old.changed_in_pairs(new)
    &&& new.at_least_as_open(old)
    &&& forall|c: int| new.is_cell(c) ==> #[trigger] rooted(old, new, entrance, c)
    &&& old.paired() ==> open_pairs(new) + seeds_of(old, entrance).len() == open_pairs(old)
        + new.tiles.len()
    &&& old.paired() && old.routes_unique() ==> new.routes_unique()
}

/// What holds while dead ends are carved: every visited cell is a cell that can be
/// reached from a cell that was the entrance or had an opening at the start, every
/// other cell has all its walls, and where walls were recorded alike on both tiles
/// one wall pair has been opened for each cell visited since the start.
pub open spec fn branch_inv(before: LabView, now: LabView, visited: Set<usize>, entrance: int) -> bool {
    &&& before.wf()
    &&& now.wf()
    &&& before.changed_in_pairs(now)
    &&& now.at_least_as_open(before)
    &&& visited.finite()
    &&& forall|v: usize| #[trigger]
        visited.contains(v) ==> now.is_cell(v as int) && rooted(before, now, entrance, v as int)
    &&& forall|c: int|
        now.is_cell(c) && !visited.contains(c as usize) ==> #[trigger] now.tiles[c]
            == LabTile::walled()
    &&& before.paired() ==> open_pairs(now) + seeds_of(before, entrance).len() == open_pairs(before)
        + visited.len()
    &&& before.paired() && before.routes_unique() ==> now.routes_unique()
}

/// A move from a visited cell keeps what holds while dead ends are carved, and adds
/// one cell to the visited ones.
pub proof fn lemma_branch_move(
    before: LabView,
    now: LabView,
    visited: Set<usize>,
    entrance: int,
    current: usize,
    pick: usize,
)
    requires
        branch_inv(before, now, visited, entrance),
        visited.contains(current),
        unvisited_moves(now, visited, current as int).len() > 0,
    ensures
        branch_inv(
            before,
            now.with_wall_pair(
                current as int,
                picked_move(now, visited, current as int, pick).1,
                false,
            ),
            visited.insert(picked_move(now, visited, current as int, pick).0),
            entrance,
        ),
        !visited.contains(picked_move(now, visited, current as int, pick).0),
        visited.insert(picked_move(now, visited, current as int, pick).0).len() == visited.len()
            + 1,
        visited.len() < now.tiles.len(),
{
    let moves = unvisited_moves(now, visited, current as int);
    let k = pick as int % moves.len() as int;
    let mv = moves[k];
    let b = mv.0;
    let d = mv.1;
    lemma_moves(now, visited, current as int);
    assert(now.neighbor(current as int, d) == Some(b as int));
    let after = now.with_wall_pair(current as int, d, false);
    let seen = visited.insert(b);
    lemma_pair_update(now, current as int, d, false);
    lemma_changed_in_pairs_trans(before, now, after);
    lemma_at_least_as_open_trans(after, now, before);
    assert(after.step(current as int, b as int));
    lemma_reachable_step(after, current as int, b as int);
    assert forall|v: usize| #[trigger] seen.contains(v) implies after.is_cell(v as int) && rooted(
        before,
        after,
        entrance,
        v as int,
    ) by {
        if v == b {
            assert(rooted(before, now, entrance, current as int));
            let a = choose|a: int|
                seeded(before, entrance, a) && #[trigger] now.reachable(a, current as int);
            lemma_reachable_monotone(now, after, a, current as int);
            lemma_reachable_trans(after, a, current as int, b as int);
        } else {
            assert(rooted(before, now, entrance, v as int));
            let a = choose|a: int|
                seeded(before, entrance, a) && #[trigger] now.reachable(a, v as int);
            lemma_reachable_monotone(now, after, a, v as int);
        }
    }
    assert forall|c: int| after.is_cell(c) && !seen.contains(c as usize) implies #[trigger]
        after.tiles[c] == LabTile::walled() by {
        assert(c != current && c != b);
        assert(after.tiles[c] == now.tiles[c]);
        assert(now.tiles[c] == LabTile::walled());
    }
    lemma_bounded_set(seen, now.tiles.len());
    if before.paired() {
        lemma_pairs_stay(before, now);
        assert(now.tiles[b as int] == LabTile::walled());
        assert(now.paired_at(current as int, d));
        lemma_open_pairs_grow(now, current as int, d);
        if before.routes_unique() {
            lemma_pair_grafts(now, current as int, d);
            lemma_graft_routes(now, after, current as int, b as int);
        }
    }
}

/// Carves dead ends until every cell has been visited. Visited at the start are the
/// entrance and the cells with an opening. The cells are taken in the order of their
/// indices; as long as one is not visited, a walk starts from the visited cell
/// nearest to it and goes on, each time to a cell next to it that was not visited,
/// chosen at random, until there is none.
pub fn generate_dead_end_paths(lab: &mut Lab, entrance: usize, exit: usize) -> (r: Result<
    (),
    LabError,
>)
    requires
        old(lab)@.wf(),
    ensures
        final(lab)@.wf(),
        r is Ok <==> old(lab)@.is_cell(entrance as int) && old(lab)@.is_cell(exit as int),
        r matches Err(e) ==> e == LabError::IndexOutOfRange && final(lab)@ == old(lab)@,
        r is Ok ==> dead_ends_carved(old(lab)@, final(lab)@, entrance as int),
        r is Ok && old(lab)@.paired() ==> final(lab)@.paired(),
{
    let n = lab.cell_count();
    if entrance >= n || exit >= n {
        return Err(LabError::IndexOutOfRange);
    }
    let ghost before = lab@;
    let mut rng = rand::thread_rng();
    let mut visited = opened_cells(lab, entrance);
    proof {
        lemma_changed_in_pairs_refl(before);
        assert forall|v: usize| #[trigger] visited@.contains(v) implies before.is_cell(v as int)
            && rooted(before, before, entrance as int, v as int) by {
            lemma_walk_single(before, v);
        }
        assert forall|c: int|
            before.is_cell(c) && !visited@.contains(c as usize) implies #[trigger] before.tiles[c]
            == LabTile::walled() by {
            assert(!seeded(before, entrance as int, c as usize as int));
        }
    }
    let mut cell: usize = 0;
    while cell < n
        invariant
            n == before.tiles.len(),
            entrance < n,
            cell <= n,
            branch_inv(before, lab@, visited@, entrance as int),
            visited@.contains(entrance),
            forall|c: usize| c < cell ==> visited@.contains(c),
        decreases n - cell,
    {
        while !visited.contains(&cell)
            invariant
                n == before.tiles.len(),
                entrance < n,
                cell < n,
                branch_inv(before, lab@, visited@, entrance as int),
                visited@.contains(entrance),
                forall|c: usize| c < cell ==> visited@.contains(c),
            decreases n - visited@.len(),
        {
            proof {
                lemma_bounded_set(visited@, n as nat);
            }
            let start = closest_visited(lab, &visited, cell);
            assert(some_cell_visited(lab@, visited@));
            let mut current = start.unwrap();
            proof {
                lemma_closest_has_move(lab@, visited@, cell, current);
            }
            let ghost size_before = visited@.len();
            let mut count = unvisited_neighbors(lab, &visited, current).len();
            while count > 0
                invariant
                    n == before.tiles.len(),
                    entrance < n,
                    cell < n,
                    branch_inv(before, lab@, visited@, entrance as int),
                    visited@.contains(entrance),
                    visited@.contains(current),
                    forall|c: usize| c < cell ==> visited@.contains(c),
                    count == unvisited_moves(lab@, visited@, current as int).len(),
                    visited@.len() >= size_before,
                    visited@.len() <= n,
                    count == 0 ==> visited@.len() > size_before,
                decreases n - visited@.len(),
            {
                let pick = pick_below(&mut rng, count);
                let ghost now = lab@;
                let ghost seen = visited@;
                let next = extend_walk(lab, &mut visited, current, pick);
                proof {
                    lemma_branch_move(before, now, seen, entrance as int, current, pick);
                    lemma_bounded_set(visited@, n as nat);
                }
                current = next.unwrap();
                count = unvisited_neighbors(lab, &visited, current).len();
            }
        }
        cell = cell + 1;
    }
    proof {
        lemma_pairs_stay_if(before, lab@);
        assert forall|c: int| lab@.is_cell(c) implies #[trigger] rooted(
            before,
            lab@,
            entrance as int,
            c,
        ) by {
            assert(visited@.contains(c as usize));
        }
        assert forall|v: usize| visited@.contains(v) <==> v < n by {}
        lemma_full_set(visited@, n as nat);
    }
    Ok(())
}

/// In a labyrinth that had every wall standing, after a main path from the entrance
/// and then dead ends have been carved, every cell can be reached from the entrance.
pub proof fn lemma_carver_covers(
    m0: LabView,
    m1: LabView,
    m2: LabView,
    entrance: int,
    exit: int,
    c: int,
)
    requires
        m0.wf(),
        m0.all_closed(),
        m0.is_cell(entrance),
        main_path_carved(m0, m1, entrance, exit),
        dead_ends_carved(m1, m2, entrance),
        m2.is_cell(c),
    ensures
        m2.reachable(entrance, c),
{
    assert(rooted(m1, m2, entrance, c));
    let a = choose|a: int| seeded(m1, entrance, a) && #[trigger] m2.reachable(a, c);
    if a == entrance {
        lemma_walk_single(m1, entrance as usize);
    } else {
        assert(m0.tiles[a] == LabTile::walled());
        assert(m1.tiles[a] != m0.tiles[a]);
    }
    lemma_reachable_monotone(m1, m2, entrance, a);
    lemma_reachable_trans(m2, entrance, a, c);
}

/// In a labyrinth that had every wall standing, after a main path and then dead
/// ends have been carved, the passages form a tree: one wall pair less is open than
/// there are cells, and between two cells there is at most one route.
pub proof fn lemma_carver_tree(m0: LabView, m1: LabView, m2: LabView, entrance: int, exit: int)
    requires
        m0.wf(),
        m0.all_closed(),
        main_path_carved(m0, m1, entrance, exit),
        dead_ends_carved(m1, m2, entrance),
    ensures
        open_pairs(m2) == m2.tiles.len() - 1,
        m2.routes_unique(),
{
    lemma_closed_paired(m0);
    lemma_pairs_stay(m0, m1);
}

/// A labyrinth of side `size` carved out of solid walls: a main path from `entrance`
/// to `exit`, then dead ends until every cell is reached. Walls are recorded alike on
/// both tiles, every cell can be reached from every cell by one route only, one wall
/// pair less is open than there are cells, and the border is closed all around.
pub fn carve_labyrinth(size: usize, entrance: usize, exit: usize) -> (r: Result<Lab, LabError>)
    ensures
        r is Ok <==> size >= 1 && size * size <= usize::MAX && entrance < size * size && exit
            < size * size,
        r matches Err(e) ==> (e == LabError::InvalidSize <==> !(size >= 1 && size * size
            <= usize::MAX)) && (e == LabError::InvalidSize || e == LabError::IndexOutOfRange),
        r matches Ok(lab) ==> {
            &&& lab@.wf()
            &&& lab@.size == size
            &&& lab@.paired()
            &&& lab@.connected()
            &&& lab@.routes_unique()
            &&& open_pairs(lab@) == lab@.tiles.len() - 1
            &&& forall|c: int, d: Direction|
                lab@.is_cell(c) && (#[trigger] lab@.neighbor(c, d)) is None ==> lab@.wall(c, d)
        },
{
    let mut lab = match Lab::new(size) {
        Ok(lab) => lab,
        Err(e) => {
            return Err(e);
        },
    };
    let ghost m0 = lab@;
    proof {
        lemma_closed_paired(m0);
    }
    match generate_main_path(&mut lab, entrance, exit) {
        Ok(()) => {},
        Err(e) => {
            return Err(e);
        },
    }
    let ghost m1 = lab@;
    match generate_dead_end_paths(&mut lab, entrance, exit) {
        Ok(()) => {},
        Err(e) => {
            return Err(e);
        },
    }
    proof {
        let m2 = lab@;
        lemma_changed_in_pairs_trans(m0, m1, m2);
        lemma_carver_tree(m0, m1, m2, entrance as int, exit as int);
        assert forall|a: int, b: int| m2.is_cell(a) && m2.is_cell(b) implies #[trigger]
            m2.reachable(a, b) by {
            lemma_carver_covers(m0, m1, m2, entrance as int, exit as int, a);
            lemma_carver_covers(m0, m1, m2, entrance as int, exit as int, b);
            lemma_reachable_sym(m2, entrance as int, a);
            lemma_reachable_trans(m2, a, entrance as int, b);
        }
        assert forall|c: int, d: Direction|
            m2.is_cell(c) && (#[trigger] m2.neighbor(c, d)) is None implies m2.wall(c, d) by {
            assert(m0.flag_kept_in_pair(m2, c, d));
            assert(m0.tiles[c] == LabTile::walled());
        }
    }
    Ok(lab)
}

} // verus!
