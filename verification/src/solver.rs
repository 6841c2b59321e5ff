//! The shortest path from the entrance to the exit.

use crate::geometry::manhattan;
use crate::graph::{lemma_direct_walk, lemma_reachable_cells, lemma_walk_distance};
use crate::lab::{Direction, Lab, LabView};
use crate::order::{lemma_no_later_antisym, no_later};
use crate::routes::{is_simple, lemma_route_bounded, lemma_shortest_is_route};
use crate::search::{
    lemma_search_advance, lemma_search_blocked, lemma_search_bounded, lemma_search_discover,
    lemma_search_exhausted, lemma_search_least, lemma_search_lengths, lemma_search_seen,
    lemma_search_start, Search,
};
use std::collections::{HashSet, VecDeque};
use vstd::prelude::*;

verus! {

broadcast use vstd::std_specs::hash::group_hash_axioms;

/// `p` is a walk from `a` to `b` that no other such walk comes before: none is
/// shorter, and of those of the same length none turns to an earlier side, in the
/// order top, right, bottom, left, where the two first part.
pub open spec fn is_first_shortest(m: LabView, p: Seq<usize>, a: int, b: int) -> bool {
    &&& m.connects(p, a, b)
    &&& forall|q: Seq<usize>| #[trigger] m.connects(q, a, b) ==> no_later(m.size as int, p, q)
}

/// No walk between two cells is shorter than the first shortest one.
pub proof fn lemma_first_shortest_is_shortest(
    m: LabView,
    p: Seq<usize>,
    q: Seq<usize>,
    a: int,
    b: int,
)
    requires
        is_first_shortest(m, p, a, b),
        m.connects(q, a, b),
    ensures
        p.len() <= q.len(),
{
}

/// Between two cells there is at most one first shortest walk: solving the same
/// labyrinth twice gives the same path.
pub proof fn lemma_first_shortest_unique(m: LabView, p: Seq<usize>, q: Seq<usize>, a: int, b: int)
    requires
        is_first_shortest(m, p, a, b),
        is_first_shortest(m, q, a, b),
    ensures
        p == q,
{
    lemma_no_later_antisym(m.size as int, p, q);
}

/// Where there is at most one route between two cells, the first shortest walk is
/// that route.
pub proof fn lemma_solution_is_the_route(
    m: LabView,
    p: Seq<usize>,
    q: Seq<usize>,
    a: int,
    b: int,
)
    requires
        m.wf(),
        m.routes_unique(),
        is_first_shortest(m, p, a, b),
        m.is_route(q),
        m.connects(q, a, b),
    ensures
        p == q,
{
    lemma_first_shortest_is_route(m, p, a, b);
}

/// The first shortest walk passes no cell twice.
pub proof fn lemma_first_shortest_is_route(m: LabView, p: Seq<usize>, a: int, b: int)
    requires
        m.wf(),
        is_first_shortest(m, p, a, b),
    ensures
        m.is_route(p),
{
    assert forall|q: Seq<usize>| #[trigger]
        m.connects(q, p[0] as int, p.last() as int) implies p.len() <= q.len() by {
        assert(no_later(m.size as int, p, q));
    }
    lemma_shortest_is_route(m, p);
}

/// The first shortest walk from `a` to `b` has at least one cell more than the
/// Manhattan distance between the two, and at most as many cells as the labyrinth.
pub proof fn lemma_first_shortest_length(m: LabView, p: Seq<usize>, a: int, b: int)
    requires
        m.wf(),
        is_first_shortest(m, p, a, b),
    ensures
        manhattan(m.size as int, a, b) + 1 <= p.len() <= m.tiles.len(),
{
    lemma_walk_distance(m, p, p.len() - 1);
    lemma_first_shortest_is_route(m, p, a, b);
    lemma_route_bounded(m, p);
}

/// Where no wall stands between cells, the first shortest walk between two cells has
/// one cell more than the Manhattan distance between them: from corner to opposite
/// corner, twice the side less one.
pub proof fn lemma_open_lab_path_length(m: LabView, p: Seq<usize>, a: usize, b: usize)
    requires
        m.wf(),
        m.no_inner_walls(),
        is_first_shortest(m, p, a as int, b as int),
    ensures
        p.len() == manhattan(m.size as int, a as int, b as int) + 1,
{
    lemma_first_shortest_length(m, p, a as int, b as int);
    crate::graph::lemma_walk_cells(m, p, 0);
    crate::graph::lemma_walk_cells(m, p, p.len() - 1);
    let q = lemma_direct_walk(m, a, b);
    assert(no_later(m.size as int, p, q));
}

/// The predecessor recorded for each found cell is the cell it was found from; none
/// is recorded for the entrance.
pub open spec fn parents_match(parent: Seq<Option<usize>>, s: Search) -> bool {
    &&& parent[s.order[0] as int] is None
    &&& forall|j: int|
        0 < j < s.order.len() ==> parent[s.order[j] as int] == Some(s.order[#[trigger] s.par[j]])
}

/// A predecessor table for `n` cells with no predecessor recorded.
fn unset_parents(n: usize) -> (parent: Vec<Option<usize>>)
    ensures
        parent@.len() == n,
        forall|i: int| 0 <= i < n ==> #[trigger] parent@[i] is None,
{
    let mut parent: Vec<Option<usize>> = Vec::new();
    let mut i: usize = 0;
    while i < n
        invariant
            i <= n,
            parent@.len() == i,
            forall|k: int| 0 <= k < i ==> #[trigger] parent@[k] is None,
        decreases n - i,
    {
        parent.push(None);
        i = i + 1;
    }
    parent
}

/// The elements of `v` from the last to the first.
pub fn reversed(v: &Vec<usize>) -> (r: Vec<usize>)
    ensures
        r@ == v@.reverse(),
{
    let mut r: Vec<usize> = Vec::new();
    let mut i: usize = v.len();
    while i > 0
        invariant
            i <= v@.len(),
            r@.len() == v@.len() - i,
            forall|k: int| 0 <= k < r@.len() ==> #[trigger] r@[k] == v@[v@.len() - 1 - k],
        decreases i,
    {
        i = i - 1;
        r.push(v[i]);
    }
    assert(r@ =~= v@.reverse());
    r
}

/// Follows the recorded predecessors from the cell at position `s.done` back to the
/// entrance and returns the cells passed, from the entrance on.
fn trace_back(parent: &Vec<Option<usize>>, target: usize, Ghost(m): Ghost<LabView>, Ghost(s): Ghost<
    Search,
>) -> (path: Vec<usize>)
    requires
        s.inv(m, s.order[0]),
        s.done < s.order.len(),
        target == s.order[s.done],
        parent@.len() == m.tiles.len(),
        parents_match(parent@, s),
    ensures
        path@ == s.paths[s.done],
{
    let ghost entrance = s.order[0];
    let mut path: Vec<usize> = Vec::new();
    let mut node = target;
    let ghost mut j: int = s.done;
    proof {
        lemma_search_lengths(m, entrance, s, j, j);
        assert(s.paths[s.done] =~= s.paths[j] + path@.reverse());
    }
    let mut prev = parent[node];
    while prev.is_some()
        invariant
            s.inv(m, entrance),
            entrance == s.order[0],
            0 <= j <= s.done < s.order.len(),
            node == s.order[j],
            parent@.len() == m.tiles.len(),
            parents_match(parent@, s),
            m.is_cell(node as int),
            prev == parent@[node as int],
            s.paths[s.done] == s.paths[j] + path@.reverse(),
        decreases j,
    {
        proof {
            assert(j > 0);
            let p = s.par[j];
            assert(0 <= p < j && s.paths[j] == s.paths[p].push(s.order[j]));
            assert(prev == Some(s.order[p]));
            lemma_search_lengths(m, entrance, s, p, p);
            assert(s.paths[p] + path@.push(node).reverse() =~= s.paths[j] + path@.reverse());
            j = p;
        }
        path.push(node);
        node = prev.unwrap();
        prev = parent[node];
    }
    proof {
        if j > 0 {
            let p = s.par[j];
            assert(parent@[s.order[j] as int] == Some(s.order[p]));
        }
        assert(j == 0);
        assert(seq![node] + path@.reverse() =~= path@.push(node).reverse());
    }
    path.push(node);
    reversed(&path)
}

/// The shortest path from `entrance` to `exit`, by a breadth-first search that tries
/// the sides of each cell in the order top, right, bottom, left; none if `exit`
/// cannot be reached from `entrance`, or if one of them is no cell.
pub fn find_shortest_path(lab: &Lab, entrance: usize, exit: usize) -> (r: Option<Vec<usize>>)
    requires
        lab@.wf(),
    ensures
        r is Some <==> lab@.reachable(entrance as int, exit as int),
        r matches Some(path) ==> {
            &&& is_first_shortest(lab@, path@, entrance as int, exit as int)
            &&& forall|q: Seq<usize>| #[trigger]
                lab@.connects(q, entrance as int, exit as int) ==> path@.len() <= q.len()
            &&& is_simple(path@)
        },
{
    let n = lab.cell_count();
    if entrance >= n || exit >= n {
        proof {
            if lab@.reachable(entrance as int, exit as int) {
                lemma_reachable_cells(lab@, entrance as int, exit as int);
            }
        }
        return None;
    }
    let mut queue: VecDeque<usize> = VecDeque::new();
    let mut visited: HashSet<usize> = HashSet::new();
    let mut parent = unset_parents(n);
    queue.push_back(entrance);
    visited.insert(entrance);
    let ghost mut s = Search::start(entrance);
    proof {
        lemma_search_start(lab@, entrance);
        assert(queue@ =~= s.order.skip(s.done));
        assert(visited@ =~= s.order.to_set());
    }
    loop
        invariant
            lab@.wf(),
            n == lab@.tiles.len(),
            entrance < n,
            exit < n,
            s.inv(lab@, entrance),
            s.sides == 0,
            queue@ == s.order.skip(s.done),
            visited@ == s.order.to_set(),
            parent@.len() == n,
            parents_match(parent@, s),
            forall|i: int| 0 <= i < s.done ==> #[trigger] s.order[i] != exit,
        decreases n - s.done,
    {
        proof {
            lemma_search_bounded(lab@, entrance, s);
        }
        match queue.pop_front() {
            None => {
                proof {
                    assert(s.done == s.order.len());
                    if lab@.reachable(entrance as int, exit as int) {
                        let q = choose|q: Seq<usize>|
                            lab@.connects(q, entrance as int, exit as int);
                        lemma_search_exhausted(lab@, entrance, s, q, q.len() - 1);
                        let i = choose|i: int| 0 <= i < s.order.len() && s.order[i] == exit;
                        assert(s.order[i] != exit);
                    }
                }
                return None;
            },
            Some(current) => {
                assert(current == s.order[s.done]);
                proof {
                    lemma_search_lengths(lab@, entrance, s, s.done, s.done);
                }
                if current == exit {
                    let path = trace_back(&parent, exit, Ghost(lab@), Ghost(s));
                    proof {
                        assert(lab@.connects(path@, entrance as int, exit as int));
                        assert forall|q: Seq<usize>| #[trigger]
                            lab@.connects(q, entrance as int, exit as int) implies no_later(
                            lab@.size as int,
                            path@,
                            q,
                        ) by {
                            lemma_search_least(lab@, entrance, s, q);
                        }
                        lemma_shortest_is_route(lab@, path@);
                    }
                    return Some(path);
                }
                let ghost position = s.done;
                let mut k: usize = 0;
                while k < 4
                    invariant
                        lab@.wf(),
                        s.done == position,
                        n == lab@.tiles.len(),
                        entrance < n,
                        exit < n,
                        k <= 4,
                        s.inv(lab@, entrance),
                        s.sides == k,
                        s.done < s.order.len(),
                        current == s.order[s.done],
                        current < n,
                        current != exit,
                        queue@ == s.order.skip(s.done + 1),
                        visited@ == s.order.to_set(),
                        parent@.len() == n,
                        parents_match(parent@, s),
                        forall|i: int| 0 <= i < s.done ==> #[trigger] s.order[i] != exit,
                    decreases 4 - k,
                {
                    let d = Direction::from_index(k).unwrap();
                    match lab.passage_to(current, d) {
                        Some(b) => {
                            if !visited.contains(&b) {
                                let ghost before = parent@;
                                visited.insert(b);
                                parent.set(b, Some(current));
                                queue.push_back(b);
                                proof {
                                    let t = s.discover(b);
                                    assert(!s.order.contains(b));
                                    lemma_search_discover(lab@, entrance, s, d, b);
                                    assert(queue@ =~= t.order.skip(t.done + 1));
                                    assert(visited@ =~= t.order.to_set()) by {
                                        assert forall|v: usize|
                                            t.order.to_set().contains(v) <==> s.order.to_set().insert(
                                                b,
                                            ).contains(v) by {
                                            if t.order.contains(v) {
                                                let i = choose|i: int|
                                                    0 <= i < t.order.len() && t.order[i] == v;
                                                if i < s.order.len() {
                                                    assert(s.order[i] == v);
                                                }
                                            }
                                            if s.order.contains(v) {
                                                let i = choose|i: int|
                                                    0 <= i < s.order.len() && s.order[i] == v;
                                                assert(t.order[i] == v);
                                            }
                                            if v == b {
                                                assert(t.order[s.order.len() as int] == b);
                                            }
                                        }
                                    }
                                    assert(parents_match(parent@, t)) by {
                                        assert forall|j: int|
                                            0 < j < t.order.len() implies parent@[t.order[j] as int]
                                            == Some(t.order[#[trigger] t.par[j]]) by {
                                            if j < s.order.len() {
                                                assert(s.order[j] != b);
                                                let p = s.par[j];
                                                lemma_search_lengths(lab@, entrance, s, j, j);
                                                assert(before[s.order[j] as int] == Some(
                                                    s.order[p],
                                                ));
                                            }
                                        }
                                        assert(s.order[0] != b);
                                        assert(before[s.order[0] as int] is None);
                                    }
                                    s = t;
                                }
                            } else {
                                proof {
                                    assert(s.order.contains(b));
                                    lemma_search_seen(lab@, entrance, s, d, b);
                                    s = s.skip_side();
                                }
                            }
                        },
                        None => {
                            proof {
                                lemma_search_blocked(lab@, entrance, s, d);
                                s = s.skip_side();
                            }
                        },
                    }
                    k = k + 1;
                }
                proof {
                    lemma_search_advance(lab@, entrance, s);
                    s = s.advance();
                    lemma_search_bounded(lab@, entrance, s);
                }
            },
        }
    }
}

/// Whether `to` can be reached from `from`.
pub fn is_reachable(lab: &Lab, from: usize, to: usize) -> (r: bool)
    requires
        lab@.wf(),
    ensures
        r == lab@.reachable(from as int, to as int),
{
    find_shortest_path(lab, from, to).is_some()
}

} // verus!
