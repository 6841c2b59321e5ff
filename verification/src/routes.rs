//! Walks that pass no cell twice, and labyrinths in which they are unique.

use crate::graph::{lemma_step_side, lemma_walk_cells, lemma_walk_join};
use crate::lab::{lemma_lab_neighbor, Direction, LabTile, LabView};
use crate::walls::lemma_pair_update;
use vstd::prelude::*;

verus! {

/// No cell occurs twice in `p`.
pub open spec fn is_simple(p: Seq<usize>) -> bool {
    forall|i: int, j: int| 0 <= i < j < p.len() ==> #[trigger] p[i] != #[trigger] p[j]
}

impl LabView {
    /// `p` is a walk that passes no cell twice.
    pub open spec fn is_route(self, p: Seq<usize>) -> bool {
        self.is_walk(p) && is_simple(p)
    }

    /// Between any two cells there is at most one route.
    pub open spec fn routes_unique(self) -> bool {
        forall|p: Seq<usize>, q: Seq<usize>|
            #![trigger self.is_route(p), self.is_route(q)]
            self.is_route(p) && self.is_route(q) && p[0] == q[0] && p.last() == q.last() ==> p
                == q
    }

    /// `after` is `self` with cell `b`, which no move of `self` enters or leaves,
    /// joined to cell `a`: its moves are those of `self` and the two between `a`
    /// and `b`.
    pub open spec fn grafted(self, after: LabView, a: int, b: int) -> bool {
        &&& self.same_shape(after)
        &&& a != b
        &&& forall|x: int, y: int| #[trigger]
            after.step(x, y) ==> self.step(x, y) || (x == a && y == b) || (x == b && y == a)
        &&& forall|x: int| !#[trigger] self.step(x, b)
        &&& forall|x: int| !#[trigger] self.step(b, x)
    }
}

/// The first `k` cells of a route are a route.
pub proof fn lemma_route_prefix(m: LabView, p: Seq<usize>, k: int)
    requires
        m.is_route(p),
        1 <= k <= p.len(),
    ensures
        m.is_route(p.take(k)),
{
    let q = p.take(k);
    assert forall|i: int| 0 <= i < q.len() - 1 implies #[trigger] m.step_at(q, i) by {
        assert(m.step_at(p, i));
    }
    assert forall|i: int, j: int| 0 <= i < j < q.len() implies #[trigger] q[i] != #[trigger] q[j] by {
        assert(p[i] != p[j]);
    }
}

/// A route without its first `k` cells is a route, if a cell is left.
pub proof fn lemma_route_suffix(m: LabView, p: Seq<usize>, k: int)
    requires
        m.wf(),
        m.is_route(p),
        0 <= k < p.len(),
    ensures
        m.is_route(p.skip(k)),
{
    let q = p.skip(k);
    lemma_walk_cells(m, p, k);
    assert forall|i: int| 0 <= i < q.len() - 1 implies #[trigger] m.step_at(q, i) by {
        assert(m.step_at(p, i + k));
    }
    assert forall|i: int, j: int| 0 <= i < j < q.len() implies #[trigger] q[i] != #[trigger] q[j] by {
        assert(p[i + k] != p[j + k]);
    }
}

/// A route has at most as many cells as the labyrinth.
pub proof fn lemma_route_bounded(m: LabView, p: Seq<usize>)
    requires
        m.wf(),
        m.is_route(p),
    ensures
        p.len() <= m.tiles.len(),
{
    assert forall|i: int| 0 <= i < p.len() implies #[trigger] p[i] < m.tiles.len() by {
        lemma_walk_cells(m, p, i);
    }
    crate::search::lemma_distinct_bounded(p, m.tiles.len());
}

/// A walk that passes a cell twice can be cut short: there is a route between the
/// same cells, which is shorter unless the walk was a route already.
pub proof fn lemma_cut_short(m: LabView, p: Seq<usize>) -> (q: Seq<usize>)
    requires
        m.wf(),
        m.is_walk(p),
    ensures
        m.is_route(q),
        q[0] == p[0],
        q.last() == p.last(),
        q.len() <= p.len(),
        is_simple(p) || q.len() < p.len(),
    decreases p.len(),
{
    if is_simple(p) {
        p
    } else {
        let (i, j) = choose|i: int, j: int| 0 <= i < j < p.len() && p[i] == p[j];
        let head = p.take(i + 1);
        let tail = p.skip(j);
        assert(m.is_walk(head)) by {
            assert forall|k: int| 0 <= k < head.len() - 1 implies #[trigger] m.step_at(head, k) by {
                assert(m.step_at(p, k));
            }
        }
        assert(m.is_walk(tail)) by {
            lemma_walk_cells(m, p, j);
            assert forall|k: int| 0 <= k < tail.len() - 1 implies #[trigger] m.step_at(tail, k) by {
                assert(m.step_at(p, k + j));
            }
        }
        lemma_walk_join(m, head, tail);
        let shorter = head + tail.skip(1);
        assert(shorter.len() == p.len() - (j - i));
        lemma_cut_short(m, shorter)
    }
}

/// Where a cell can be reached, it can be reached by a route.
pub proof fn lemma_route_exists(m: LabView, a: int, b: int) -> (p: Seq<usize>)
    requires
        m.wf(),
        m.reachable(a, b),
    ensures
        m.is_route(p),
        m.connects(p, a, b),
{
    let w = choose|w: Seq<usize>| m.connects(w, a, b);
    lemma_cut_short(m, w)
}

/// A walk that is no longer than any other between the same cells is a route.
pub proof fn lemma_shortest_is_route(m: LabView, p: Seq<usize>)
    requires
        m.wf(),
        m.is_walk(p),
        forall|q: Seq<usize>| #[trigger]
            m.connects(q, p[0] as int, p.last() as int) ==> p.len() <= q.len(),
    ensures
        m.is_route(p),
{
    let q = lemma_cut_short(m, p);
    assert(m.connects(q, p[0] as int, p.last() as int));
}

/// A walk of the joined labyrinth that does not pass the joined cell is a walk of
/// the labyrinth before.
proof fn lemma_walk_before_graft(m: LabView, after: LabView, a: int, b: int, w: Seq<usize>)
    requires
        m.grafted(after, a, b),
        after.is_walk(w),
        forall|i: int| 0 <= i < w.len() ==> #[trigger] w[i] != b,
    ensures
        m.is_walk(w),
{
    assert forall|i: int| 0 <= i < w.len() - 1 implies #[trigger] m.step_at(w, i) by {
        assert(after.step_at(w, i));
        assert(after.step(w[i] as int, w[i + 1] as int));
        assert(w[i] != b);
        assert(w[i + 1] != b);
    }
}

/// A route of the joined labyrinth passes the joined cell at its ends only.
proof fn lemma_leaf_at_ends(m: LabView, after: LabView, a: int, b: int, w: Seq<usize>, i: int)
    requires
        m.grafted(after, a, b),
        after.is_route(w),
        0 <= i < w.len(),
        w[i] == b,
    ensures
        i == 0 || i == w.len() - 1,
{
    if 0 < i < w.len() - 1 {
        assert(after.step_at(w, i - 1));
        assert(after.step(w[i - 1] as int, w[i] as int));
        assert(after.step_at(w, i));
        assert(after.step(w[i] as int, w[(i + 1)] as int));
        assert(w[i - 1] == a);
        assert(w[i + 1] == a);
        assert(w[i - 1] != w[i + 1]);
    }
}

/// Two routes of the joined labyrinth between the same cells are the same route, if
/// routes were unique before.
proof fn lemma_graft_pair(
    m: LabView,
    after: LabView,
    a: int,
    b: int,
    p: Seq<usize>,
    q: Seq<usize>,
)
    requires
        m.wf(),
        after.wf(),
        m.grafted(after, a, b),
        m.routes_unique(),
        after.is_route(p),
        after.is_route(q),
        p[0] == q[0],
        p.last() == q.last(),
    ensures
        p == q,
{
    let s = p[0];
    let t = p.last();
    if s == t {
        if p.len() > 1 {
            assert(p[0] != p[p.len() - 1]);
        }
        if q.len() > 1 {
            assert(q[0] != q[q.len() - 1]);
        }
        assert(p =~= q);
    } else if t == b {
        let pl = p.len() - 1;
        let ql = q.len() - 1;
        assert(after.step_at(p, pl - 1));
        assert(after.step(p[pl - 1] as int, p[pl] as int));
        assert(after.step_at(q, ql - 1));
        assert(after.step(q[ql - 1] as int, q[ql] as int));
        let pa = p.take(pl);
        let qa = q.take(ql);
        lemma_route_prefix(after, p, pl);
        lemma_route_prefix(after, q, ql);
        assert forall|i: int| 0 <= i < pa.len() implies #[trigger] pa[i] != b by {
            assert(p[i] != p[pl]);
        }
        assert forall|i: int| 0 <= i < qa.len() implies #[trigger] qa[i] != b by {
            assert(q[i] != q[ql]);
        }
        lemma_walk_before_graft(m, after, a, b, pa);
        lemma_walk_before_graft(m, after, a, b, qa);
        assert(m.is_route(pa) && m.is_route(qa));
        assert(pa.last() == p[pl - 1]);
        assert(qa.last() == q[ql - 1]);
        assert(pa == qa);
        assert(p =~= pa.push(p[pl]));
        assert(q =~= qa.push(q[ql]));
    } else if s == b {
        assert(after.step_at(p, 0));
        assert(after.step(p[0] as int, p[1] as int));
        assert(after.step_at(q, 0));
        assert(after.step(q[0] as int, q[1] as int));
        let pa = p.skip(1);
        let qa = q.skip(1);
        lemma_route_suffix(after, p, 1);
        lemma_route_suffix(after, q, 1);
        assert forall|i: int| 0 <= i < pa.len() implies #[trigger] pa[i] != b by {
            assert(p[0] != p[i + 1]);
        }
        assert forall|i: int| 0 <= i < qa.len() implies #[trigger] qa[i] != b by {
            assert(q[0] != q[i + 1]);
        }
        lemma_walk_before_graft(m, after, a, b, pa);
        lemma_walk_before_graft(m, after, a, b, qa);
        assert(m.is_route(pa) && m.is_route(qa));
        assert(pa[0] == p[1]);
        assert(qa[0] == q[1]);
        assert(pa.last() == p.last());
        assert(qa.last() == q.last());
        assert(pa == qa);
        assert(p =~= seq![p[0]] + pa);
        assert(q =~= seq![q[0]] + qa);
    } else {
        assert forall|i: int| 0 <= i < p.len() implies #[trigger] p[i] != b by {
            if p[i] == b {
                lemma_leaf_at_ends(m, after, a, b, p, i);
            }
        }
        assert forall|i: int| 0 <= i < q.len() implies #[trigger] q[i] != b by {
            if q[i] == b {
                lemma_leaf_at_ends(m, after, a, b, q, i);
            }
        }
        lemma_walk_before_graft(m, after, a, b, p);
        lemma_walk_before_graft(m, after, a, b, q);
        assert(m.is_route(p) && m.is_route(q));
    }
}

/// Joining a cell that no move entered or left to one other cell keeps routes unique.
pub proof fn lemma_graft_routes(m: LabView, after: LabView, a: int, b: int)
    requires
        m.wf(),
        after.wf(),
        m.grafted(after, a, b),
        m.routes_unique(),
    ensures
        after.routes_unique(),
{
    assert forall|p: Seq<usize>, q: Seq<usize>|
        #![trigger after.is_route(p), after.is_route(q)]
        after.is_route(p) && after.is_route(q) && p[0] == q[0] && p.last() == q.last() implies p
        == q by {
        lemma_graft_pair(m, after, a, b, p, q);
    }
}

/// Removing the wall between a cell and a neighbor that has all its walls joins the
/// neighbor to the cell, where walls are recorded alike on both tiles.
pub proof fn lemma_pair_grafts(m: LabView, a: int, d: Direction)
    requires
        m.wf(),
        m.paired(),
        m.neighbor(a, d) is Some,
        m.tiles[m.neighbor(a, d).unwrap()] == LabTile::walled(),
    ensures
        m.grafted(m.with_wall_pair(a, d, false), a, m.neighbor(a, d).unwrap()),
{
    let b = m.neighbor(a, d).unwrap();
    let o = d.spec_opposite();
    let after = m.with_wall_pair(a, d, false);
    lemma_lab_neighbor(m, a, d);
    lemma_pair_update(m, a, d, false);
    assert forall|x: int| !#[trigger] m.step(x, b) by {
        if m.step(x, b) {
            let e = lemma_step_side(m, x, b);
            assert(m.paired_at(x, e));
        }
    }
    assert forall|x: int| !#[trigger] m.step(b, x) by {
        if m.step(b, x) {
            let e = lemma_step_side(m, b, x);
        }
    }
    assert forall|x: int, y: int| #[trigger]
        after.step(x, y) implies m.step(x, y) || (x == a && y == b) || (x == b && y == a) by {
        let e = lemma_step_side(after, x, y);
        assert(m.neighbor(x, e) == after.neighbor(x, e));
        if !(x == a && y == b) && !(x == b && y == a) {
            if x == a && e == d {
                assert(y == b);
            }
            if x == b && e == o {
                assert(y == a);
            }
            assert(m.apart_from_pair(a, d, x, e));
            assert(after.wall(x, e) == m.wall(x, e));
            assert(m.passage(x, e));
        }
    }
}

/// With every wall standing the only routes are the single cells.
pub proof fn lemma_closed_routes(m: LabView)
    requires
        m.wf(),
        m.all_closed(),
    ensures
        m.routes_unique(),
{
    assert forall|p: Seq<usize>, q: Seq<usize>|
        #![trigger m.is_route(p), m.is_route(q)]
        m.is_route(p) && m.is_route(q) && p[0] == q[0] && p.last() == q.last() implies p == q by {
        if p.len() > 1 {
            assert(m.step_at(p, 0));
            let d = lemma_step_side(m, p[0] as int, p[1] as int);
            assert(m.tiles[p[0] as int] == LabTile::walled());
        }
        if q.len() > 1 {
            assert(m.step_at(q, 0));
            let d = lemma_step_side(m, q[0] as int, q[1] as int);
            assert(m.tiles[q[0] as int] == LabTile::walled());
        }
        assert(p =~= q);
    }
}

/// Routes that were unique stay unique where no wall is removed between cells.
pub proof fn lemma_routes_stay(m1: LabView, m2: LabView)
    requires
        m1.routes_unique(),
        m1.same_shape(m2),
        forall|c: int, d: Direction|
            m1.is_cell(c) && m1.neighbor(c, d) is Some && #[trigger] m1.wall(c, d) ==> m2.wall(
                c,
                d,
            ),
    ensures
        m2.routes_unique(),
{
    assert forall|p: Seq<usize>, q: Seq<usize>|
        #![trigger m2.is_route(p), m2.is_route(q)]
        m2.is_route(p) && m2.is_route(q) && p[0] == q[0] && p.last() == q.last() implies p == q by {
        lemma_walk_kept(m1, m2, p);
        lemma_walk_kept(m1, m2, q);
        assert(m1.is_route(p) && m1.is_route(q));
    }
}

/// A walk of a labyrinth is a walk of every labyrinth of the same shape in which no
/// wall between cells stands that does not stand in the first.
proof fn lemma_walk_kept(m1: LabView, m2: LabView, p: Seq<usize>)
    requires
        m1.same_shape(m2),
        forall|c: int, d: Direction|
            m1.is_cell(c) && m1.neighbor(c, d) is Some && #[trigger] m1.wall(c, d) ==> m2.wall(
                c,
                d,
            ),
        m2.is_walk(p),
    ensures
        m1.is_walk(p),
{
    assert forall|i: int| 0 <= i < p.len() - 1 implies #[trigger] m1.step_at(p, i) by {
        assert(m2.step_at(p, i));
        let d = lemma_step_side(m2, p[i] as int, p[i + 1] as int);
        assert(m1.neighbor(p[i] as int, d) == m2.neighbor(p[i] as int, d));
        assert(!m1.wall(p[i] as int, d));
    }
}

} // verus!
