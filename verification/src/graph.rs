//! Moves, walks and reachability in a labyrinth.

use crate::geometry::{lemma_neighbor, lemma_step_towards, manhattan, side_towards};
use crate::lab::{lemma_lab_neighbor, Direction, Lab, LabView};
use vstd::prelude::*;

verus! {

impl LabView {
    /// One can leave cell `a` through side `d`: there is a cell beyond it and no wall
    /// on that side of `a`.
    pub open spec fn passage(self, a: int, d: Direction) -> bool {
        self.neighbor(a, d) is Some && !self.wall(a, d)
    }

    /// One can go from cell `a` to cell `b` in one move.
    pub open spec fn step(self, a: int, b: int) -> bool {
        ||| self.passage(a, Direction::Top) && self.neighbor(a, Direction::Top) == Some(b)
        ||| self.passage(a, Direction::Right) && self.neighbor(a, Direction::Right) == Some(b)
        ||| self.passage(a, Direction::Bottom) && self.neighbor(a, Direction::Bottom) == Some(b)
        ||| self.passage(a, Direction::Left) && self.neighbor(a, Direction::Left) == Some(b)
    }

    /// The move from the `i`-th cell of `p` to the next is possible.
    pub open spec fn step_at(self, p: Seq<usize>, i: int) -> bool {
        self.step(p[i] as int, p[i + 1] as int)
    }

    /// `p` is a sequence of cells, each reached from the one before in one move.
    pub open spec fn is_walk(self, p: Seq<usize>) -> bool {
        &&& p.len() >= 1
        &&& self.is_cell(p[0] as int)
        &&& forall|i: int| 0 <= i < p.len() - 1 ==> #[trigger] self.step_at(p, i)
    }

    /// `p` is a walk that starts at `a` and ends at `b`.
    pub open spec fn connects(self, p: Seq<usize>, a: int, b: int) -> bool {
        self.is_walk(p) && p[0] == a && p.last() == b
    }

    /// Some walk leads from `a` to `b`.
    pub open spec fn reachable(self, a: int, b: int) -> bool {
        exists|p: Seq<usize>| self.connects(p, a, b)
    }

    /// Every cell can be reached from every cell.
    pub open spec fn connected(self) -> bool {
        forall|a: int, b: int| self.is_cell(a) && self.is_cell(b) ==> #[trigger] self.reachable(a, b)
    }

    /// No wall stands between two cells.
    pub open spec fn no_inner_walls(self) -> bool {
        forall|c: int, d: Direction| (#[trigger] self.neighbor(c, d)) is Some ==> !self.wall(c, d)
    }

    /// `self` has the shape of `other` and a wall only where `other` has one.
    pub open spec fn at_least_as_open(self, other: LabView) -> bool {
        &&& self.same_shape(other)
        &&& forall|c: int, d: Direction|
            self.is_cell(c) && #[trigger] self.wall(c, d) ==> other.wall(c, d)
    }
}

/// A side of the first cell through which a move between two cells is made.
pub proof fn lemma_step_side(m: LabView, a: int, b: int) -> (d: Direction)
    requires
        m.step(a, b),
    ensures
        m.passage(a, d),
        m.neighbor(a, d) == Some(b),
{
    if m.passage(a, Direction::Top) && m.neighbor(a, Direction::Top) == Some(b) {
        Direction::Top
    } else if m.passage(a, Direction::Right) && m.neighbor(a, Direction::Right) == Some(b) {
        Direction::Right
    } else if m.passage(a, Direction::Bottom) && m.neighbor(a, Direction::Bottom) == Some(b) {
        Direction::Bottom
    } else {
        Direction::Left
    }
}

/// A move leads from a cell to another cell.
pub proof fn lemma_step_cells(m: LabView, a: int, b: int)
    requires
        m.wf(),
        m.step(a, b),
    ensures
        m.is_cell(a),
        m.is_cell(b),
        a != b,
{
    let d = lemma_step_side(m, a, b);
    lemma_lab_neighbor(m, a, d);
}

/// Every element of a walk is a cell.
pub proof fn lemma_walk_cells(m: LabView, p: Seq<usize>, i: int)
    requires
        m.wf(),
        m.is_walk(p),
        0 <= i < p.len(),
    ensures
        m.is_cell(p[i] as int),
    decreases i,
{
    if i > 0 {
        lemma_walk_cells(m, p, i - 1);
        assert(m.step_at(p, i - 1));
        lemma_step_cells(m, p[i - 1] as int, p[i] as int);
    }
}

/// A walk needs at least as many moves as the Manhattan distance between its ends:
/// its `k`-th cell is at most `k` away from its first.
pub proof fn lemma_walk_distance(m: LabView, p: Seq<usize>, k: int)
    requires
        m.wf(),
        m.is_walk(p),
        0 <= k < p.len(),
    ensures
        manhattan(m.size as int, p[0] as int, p[k] as int) <= k,
    decreases k,
{
    let size = m.size as int;
    if k > 0 {
        lemma_walk_distance(m, p, k - 1);
        assert(m.step_at(p, k - 1));
        let d = lemma_step_side(m, p[k - 1] as int, p[k] as int);
        lemma_neighbor(size, p[k - 1] as int, d);
    }
}

/// Where no wall stands between cells, a walk leads from any cell to any other in as
/// many moves as the Manhattan distance between them.
pub proof fn lemma_direct_walk(m: LabView, a: usize, b: usize) -> (p: Seq<usize>)
    requires
        m.wf(),
        m.no_inner_walls(),
        m.is_cell(a as int),
        m.is_cell(b as int),
    ensures
        m.connects(p, a as int, b as int),
        p.len() == manhattan(m.size as int, a as int, b as int) + 1,
    decreases manhattan(m.size as int, a as int, b as int),
{
    let size = m.size as int;
    if a == b {
        lemma_walk_single(m, a);
        seq![a]
    } else {
        lemma_step_towards(size, a as int, b as int);
        let d = side_towards(size, a as int, b as int);
        let next = m.neighbor(a as int, d).unwrap() as usize;
        lemma_lab_neighbor(m, a as int, d);
        assert(m.step(a as int, next as int));
        let rest = lemma_direct_walk(m, next, b);
        lemma_walk_single(m, a);
        lemma_walk_push(m, seq![a], next);
        lemma_walk_join(m, seq![a].push(next), rest);
        seq![a].push(next) + rest.skip(1)
    }
}

/// A cell alone is a walk from itself to itself.
pub proof fn lemma_walk_single(m: LabView, a: usize)
    requires
        m.is_cell(a as int),
    ensures
        m.connects(seq![a], a as int, a as int),
        m.reachable(a as int, a as int),
{
    assert(m.connects(seq![a], a as int, a as int));
}

/// A walk extended by one move from its last cell is a walk.
pub proof fn lemma_walk_push(m: LabView, p: Seq<usize>, b: usize)
    requires
        m.is_walk(p),
        m.step(p.last() as int, b as int),
    ensures
        m.is_walk(p.push(b)),
        m.connects(p.push(b), p[0] as int, b as int),
{
    let q = p.push(b);
    assert forall|i: int| 0 <= i < q.len() - 1 implies #[trigger] m.step_at(q, i) by {
        if i < p.len() - 1 {
            assert(m.step_at(p, i));
        }
    }
}

/// Two walks, the second starting where the first ends, join into one walk.
pub proof fn lemma_walk_join(m: LabView, p: Seq<usize>, q: Seq<usize>)
    requires
        m.is_walk(p),
        m.is_walk(q),
        p.last() == q[0],
    ensures
        m.is_walk(p + q.skip(1)),
        (p + q.skip(1))[0] == p[0],
        (p + q.skip(1)).last() == q.last(),
{
    let r = p + q.skip(1);
    assert forall|i: int| 0 <= i < r.len() - 1 implies #[trigger] m.step_at(r, i) by {
        if i < p.len() - 1 {
            assert(m.step_at(p, i));
        } else {
            let j = i - (p.len() - 1);
            assert(m.step_at(q, j));
            assert(r[i + 1] == q[j + 1]);
            if j == 0 {
                assert(r[i] == p.last());
            } else {
                assert(r[i] == q[j]);
            }
        }
    }
}

/// Reachability is transitive.
pub proof fn lemma_reachable_trans(m: LabView, a: int, b: int, c: int)
    requires
        m.reachable(a, b),
        m.reachable(b, c),
    ensures
        m.reachable(a, c),
{
    let p = choose|p: Seq<usize>| m.connects(p, a, b);
    let q = choose|q: Seq<usize>| m.connects(q, b, c);
    lemma_walk_join(m, p, q);
    assert(m.connects(p + q.skip(1), a, c));
}

/// A cell is reachable from itself, and so is each cell one move away.
pub proof fn lemma_reachable_step(m: LabView, a: int, b: int)
    requires
        m.wf(),
        m.step(a, b),
    ensures
        m.reachable(a, a),
        m.reachable(a, b),
        m.reachable(b, b),
{
    lemma_step_cells(m, a, b);
    lemma_walk_single(m, a as usize);
    lemma_walk_single(m, b as usize);
    lemma_walk_push(m, seq![a as usize], b as usize);
    assert(m.connects(seq![a as usize].push(b as usize), a, b));
}

/// Both ends of a walk are cells.
pub proof fn lemma_reachable_cells(m: LabView, a: int, b: int)
    requires
        m.wf(),
        m.reachable(a, b),
    ensures
        m.is_cell(a),
        m.is_cell(b),
{
    let p = choose|p: Seq<usize>| m.connects(p, a, b);
    lemma_walk_cells(m, p, p.len() - 1);
}

/// Removing walls keeps every move possible.
pub proof fn lemma_step_monotone(m1: LabView, m2: LabView, a: int, b: int)
    requires
        m2.at_least_as_open(m1),
        m1.step(a, b),
    ensures
        m2.step(a, b),
{
    let d = lemma_step_side(m1, a, b);
    assert(m2.neighbor(a, d) == m1.neighbor(a, d));
    assert(!m2.wall(a, d));
}

/// Removing walls keeps every walk.
pub proof fn lemma_walk_monotone(m1: LabView, m2: LabView, p: Seq<usize>)
    requires
        m2.at_least_as_open(m1),
        m1.is_walk(p),
    ensures
        m2.is_walk(p),
{
    assert forall|i: int| 0 <= i < p.len() - 1 implies #[trigger] m2.step_at(p, i) by {
        assert(m1.step_at(p, i));
        lemma_step_monotone(m1, m2, p[i] as int, p[i + 1] as int);
    }
}

/// Removing walls keeps every cell reachable that was reachable.
pub proof fn lemma_reachable_monotone(m1: LabView, m2: LabView, a: int, b: int)
    requires
        m2.at_least_as_open(m1),
        m1.reachable(a, b),
    ensures
        m2.reachable(a, b),
{
    let p = choose|p: Seq<usize>| m1.connects(p, a, b);
    lemma_walk_monotone(m1, m2, p);
    assert(m2.connects(p, a, b));
}

/// Where walls are recorded alike on both tiles, every move can be made backwards.
pub proof fn lemma_step_back(m: LabView, a: int, b: int)
    requires
        m.wf(),
        m.paired(),
        m.step(a, b),
    ensures
        m.step(b, a),
{
    let d = lemma_step_side(m, a, b);
    lemma_lab_neighbor(m, a, d);
    assert(m.paired_at(a, d));
    let o = d.spec_opposite();
    assert(m.passage(b, o) && m.neighbor(b, o) == Some(a));
}

/// Where walls are recorded alike on both tiles, a walk read backwards is a walk.
pub proof fn lemma_walk_reverse(m: LabView, p: Seq<usize>)
    requires
        m.wf(),
        m.paired(),
        m.is_walk(p),
    ensures
        m.is_walk(p.reverse()),
        p.reverse()[0] == p.last(),
        p.reverse().last() == p[0],
{
    let q = p.reverse();
    lemma_walk_cells(m, p, p.len() - 1);
    assert forall|i: int| 0 <= i < q.len() - 1 implies #[trigger] m.step_at(q, i) by {
        let j = p.len() - 2 - i;
        assert(m.step_at(p, j));
        assert(q[i] == p[j + 1]);
        assert(q[i + 1] == p[j]);
        lemma_step_back(m, p[j] as int, p[j + 1] as int);
    }
}

/// Where walls are recorded alike on both tiles, reachability is symmetric.
pub proof fn lemma_reachable_sym(m: LabView, a: int, b: int)
    requires
        m.wf(),
        m.paired(),
        m.reachable(a, b),
    ensures
        m.reachable(b, a),
{
    let p = choose|p: Seq<usize>| m.connects(p, a, b);
    lemma_walk_reverse(m, p);
    assert(m.connects(p.reverse(), b, a));
}

/// With every wall standing no move is possible, so a cell reaches only itself.
pub proof fn lemma_closed_unreachable(m: LabView, a: int, b: int)
    requires
        m.wf(),
        m.all_closed(),
        a != b,
    ensures
        !m.reachable(a, b),
{
    if m.reachable(a, b) {
        let p = choose|p: Seq<usize>| m.connects(p, a, b);
        assert(p.len() >= 2);
        assert(m.step_at(p, 0));
        let d = lemma_step_side(m, p[0] as int, p[1] as int);
        assert(m.tiles[p[0] as int] == crate::lab::LabTile::walled());
        assert(false);
    }
}

impl Lab {
    /// The cell that one reaches by leaving `cell` through side `d`, if there is a cell
    /// beyond that side and no wall on it.
    pub fn passage_to(&self, cell: usize, d: Direction) -> (r: Option<usize>)
        requires
            self@.wf(),
        ensures
            r is Some <==> self@.passage(cell as int, d),
            r matches Some(b) ==> self@.neighbor(cell as int, d) == Some(b as int) && self@.is_cell(
                b as int,
            ) && self@.step(cell as int, b as int),
    {
        match self.neighbor(cell, d) {
            Some(b) => {
                if self.has_wall(cell, d) {
                    None
                } else {
                    Some(b)
                }
            },
            None => None,
        }
    }
}

} // verus!
