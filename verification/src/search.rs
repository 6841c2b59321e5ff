//! The state of a breadth-first search and what holds of it.

use crate::graph::{lemma_step_side, lemma_walk_cells, lemma_walk_push};
use crate::lab::{Direction, LabView};
use crate::order::{
    lemma_no_later_push, lemma_no_later_trans, lemma_precedes_push, lemma_precedes_sibling,
    lemma_side_rank, no_later, precedes, side_rank,
};
use vstd::prelude::*;

verus! {

/// A sequence of numbers below `n`, no two of them equal, has at most `n` elements.
pub proof fn lemma_distinct_bounded(s: Seq<usize>, n: nat)
    requires
        forall|i: int| 0 <= i < s.len() ==> #[trigger] s[i] < n,
        forall|i: int, j: int| 0 <= i < j < s.len() ==> #[trigger] s[i] != #[trigger] s[j],
    ensures
        s.len() <= n,
    decreases n,
{
    if s.len() > 0 {
        if n == 0 {
            assert(s[0] < n);
        } else if exists|k: int| 0 <= k < s.len() && #[trigger] s[k] == n - 1 {
            let k = choose|k: int| 0 <= k < s.len() && #[trigger] s[k] == n - 1;
            let t = s.remove(k);
            assert forall|i: int| 0 <= i < t.len() implies #[trigger] t[i] < n - 1 by {
                if i < k {
                    assert(t[i] == s[i]);
                    assert(s[i] != s[k]);
                } else {
                    assert(t[i] == s[i + 1]);
                    assert(s[k] != s[i + 1]);
                }
                assert(t[i] < n);
            }
            assert forall|i: int, j: int| 0 <= i < j < t.len() implies #[trigger] t[i]
                != #[trigger] t[j] by {
                let i2 = if i < k {
                    i
                } else {
                    i + 1
                };
                let j2 = if j < k {
                    j
                } else {
                    j + 1
                };
                assert(t[i] == s[i2]);
                assert(t[j] == s[j2]);
            }
            lemma_distinct_bounded(t, (n - 1) as nat);
        } else {
            assert forall|i: int| 0 <= i < s.len() implies #[trigger] s[i] < n - 1 by {
                assert(s[i] < n);
            }
            lemma_distinct_bounded(s, (n - 1) as nat);
        }
    }
}

/// The state of a breadth-first search: the cells found so far in the order in which
/// they were found, for each its walk from the entrance and the position of the cell
/// it was found from, the number of cells whose sides have all been examined, and
/// the number of sides examined of the next one.
pub struct Search {
    pub order: Seq<usize>,
    pub paths: Seq<Seq<usize>>,
    pub par: Seq<int>,
    pub done: int,
    pub sides: int,
}

impl Search {
    /// The search that has found the entrance and nothing else.
    pub open spec fn start(entrance: usize) -> Search {
        Search { order: seq![entrance], paths: seq![seq![entrance]], par: seq![0int], done: 0, sides: 0 }
    }

    /// The search after it has found `b` beyond the next side of the cell at `done`.
    pub open spec fn discover(self, b: usize) -> Search {
        Search {
            order: self.order.push(b),
            paths: self.paths.push(self.paths[self.done].push(b)),
            par: self.par.push(self.done),
            done: self.done,
            sides: self.sides + 1,
        }
    }

    /// The search after the next side of the cell at `done` gave nothing new.
    pub open spec fn skip_side(self) -> Search {
        Search { sides: self.sides + 1, ..self }
    }

    /// The search after all sides of the cell at `done` have been examined.
    pub open spec fn advance(self) -> Search {
        Search { done: self.done + 1, sides: 0, ..self }
    }

    /// The sequences have one element for each found cell, and the counters are in range.
    pub open spec fn shaped(self) -> bool {
        &&& self.order.len() >= 1
        &&& self.paths.len() == self.order.len()
        &&& self.par.len() == self.order.len()
        &&& 0 <= self.done <= self.order.len()
        &&& 0 <= self.sides <= 4
        &&& (self.done == self.order.len() ==> self.sides == 0)
    }

    /// The cell beyond side `d` of the cell at position `i` has been found, and its
    /// walk is no later than the walk of that cell extended by the move through `d`.
    pub open spec fn found(self, m: LabView, i: int, d: Direction) -> bool {
        exists|j: int|
            #![trigger self.order[j]]
            0 <= j < self.order.len() && self.order[j] as int == m.neighbor(
                self.order[i] as int,
                d,
            ).unwrap() && no_later(m.size as int, self.paths[j], self.paths[i].push(self.order[j]))
    }

    /// If one can leave the cell at position `i` through side `d`, the cell beyond has
    /// been found.
    pub open spec fn expanded_at(self, m: LabView, i: int, d: Direction) -> bool {
        m.passage(self.order[i] as int, d) ==> self.found(m, i, d)
    }

    /// What holds of a search from `entrance` in `m` at every moment.
    pub open spec fn inv(self, m: LabView, entrance: usize) -> bool {
        &&& m.wf()
        &&& self.shaped()
        &&& self.order[0] == entrance
        &&& self.paths[0] == seq![entrance]
        &&& forall|i: int|
            0 <= i < self.order.len() ==> m.connects(
                #[trigger] self.paths[i],
                entrance as int,
                self.order[i] as int,
            )
        &&& forall|i: int|
            0 < i < self.order.len() ==> {
                let p = #[trigger] self.par[i];
                0 <= p < i && p <= self.done && self.paths[i] == self.paths[p].push(self.order[i])
            }
        &&& forall|i: int, j: int|
            0 <= i < j < self.order.len() ==> precedes(
                m.size as int,
                #[trigger] self.paths[i],
                #[trigger] self.paths[j],
            )
        &&& forall|i: int, j: int|
            0 <= i < j < self.order.len() ==> #[trigger] self.order[i] != #[trigger] self.order[j]
        &&& self.done < self.order.len() ==> forall|i: int|
            0 <= i < self.order.len() ==> (#[trigger] self.paths[i]).len()
                <= self.paths[self.done].len() + 1
        &&& forall|i: int, d: Direction| 0 <= i < self.done ==> #[trigger] self.expanded_at(m, i, d)
        &&& forall|d: Direction|
            self.done < self.order.len() && d.spec_index() < self.sides
                ==> #[trigger] self.expanded_at(m, self.done, d)
        &&& forall|j: int|
            0 < j < self.order.len() && #[trigger] self.par[j] == self.done ==> side_rank(
                m.size as int,
                self.order[self.done] as int,
                self.order[j] as int,
            ) < self.sides
    }
}

/// What holds of a search holds at its start.
pub proof fn lemma_search_start(m: LabView, entrance: usize)
    requires
        m.wf(),
        m.is_cell(entrance as int),
    ensures
        Search::start(entrance).inv(m, entrance),
{
    let s = Search::start(entrance);
    assert(m.connects(seq![entrance], entrance as int, entrance as int));
}

/// The walks of cells found earlier are no longer than those of cells found later.
pub proof fn lemma_search_lengths(m: LabView, entrance: usize, s: Search, i: int, j: int)
    requires
        s.inv(m, entrance),
        0 <= i <= j < s.order.len(),
    ensures
        s.paths[i].len() <= s.paths[j].len(),
        s.paths[i].len() >= 1,
        s.paths[i].last() == s.order[i],
        m.is_cell(s.order[i] as int),
{
    if i < j {
        assert(precedes(m.size as int, s.paths[i], s.paths[j]));
    }
    assert(m.connects(s.paths[i], entrance as int, s.order[i] as int));
    lemma_walk_cells(m, s.paths[i], s.paths[i].len() - 1);
}

/// No more cells are found than there are.
pub proof fn lemma_search_bounded(m: LabView, entrance: usize, s: Search)
    requires
        s.inv(m, entrance),
    ensures
        s.order.len() <= m.tiles.len(),
{
    assert forall|i: int| 0 <= i < s.order.len() implies #[trigger] s.order[i]
        < m.tiles.len() by {
        lemma_search_lengths(m, entrance, s, i, i);
    }
    lemma_distinct_bounded(s.order, m.tiles.len());
}

/// The walk of the cell at `j`, which is the cell `b` beyond side `d` of the cell at
/// `done`, is no later than the walk of the cell at `done` extended to `b`.
proof fn lemma_search_known(m: LabView, entrance: usize, s: Search, d: Direction, j: int)
    requires
        s.inv(m, entrance),
        s.done < s.order.len(),
        0 <= j < s.order.len(),
        m.neighbor(s.order[s.done] as int, d) == Some(s.order[j] as int),
    ensures
        no_later(m.size as int, s.paths[j], s.paths[s.done].push(s.order[j])),
{
    let size = m.size as int;
    let cur = s.done;
    let b = s.order[j];
    if j <= cur {
        lemma_search_lengths(m, entrance, s, j, cur);
    } else {
        let p = s.par[j];
        assert(s.paths[j] == s.paths[p].push(b));
        if p < cur {
            assert(precedes(size, s.paths[p], s.paths[cur]));
            lemma_precedes_push(size, s.paths[p], s.paths[cur], b, b);
        }
    }
}

/// What holds of a search still holds after a cell that was not found before has been
/// found beyond the next side of the cell at `done`.
pub proof fn lemma_search_discover(m: LabView, entrance: usize, s: Search, d: Direction, b: usize)
    requires
        s.inv(m, entrance),
        s.done < s.order.len(),
        d.spec_index() == s.sides,
        m.passage(s.order[s.done] as int, d),
        m.neighbor(s.order[s.done] as int, d) == Some(b as int),
        !s.order.contains(b),
    ensures
        s.discover(b).inv(m, entrance),
{
    let t = s.discover(b);
    let n = s.order.len() as int;
    let size = m.size as int;
    let cur = s.done;
    let c = s.order[cur];
    let np = s.paths[cur].push(b);
    lemma_search_lengths(m, entrance, s, cur, cur);
    assert(m.step(c as int, b as int));
    lemma_walk_push(m, s.paths[cur], b);
    lemma_side_rank(size, c as int, d);
    assert forall|i: int| 0 <= i < t.order.len() implies m.connects(
        #[trigger] t.paths[i],
        entrance as int,
        t.order[i] as int,
    ) by {
        if i < n {
            assert(t.paths[i] == s.paths[i]);
            assert(m.connects(s.paths[i], entrance as int, s.order[i] as int));
        }
    }
    assert forall|i: int| 0 < i < t.order.len() implies {
        let p = #[trigger] t.par[i];
        0 <= p < i && p <= t.done && t.paths[i] == t.paths[p].push(t.order[i])
    } by {
        if i < n {
            let p = s.par[i];
            assert(0 <= p < i && p <= s.done && s.paths[i] == s.paths[p].push(s.order[i]));
        }
    }
    assert forall|i: int, j: int| 0 <= i < j < t.order.len() implies precedes(
        size,
        #[trigger] t.paths[i],
        #[trigger] t.paths[j],
    ) by {
        if j < n {
            assert(precedes(size, s.paths[i], s.paths[j]));
        } else {
            if i <= cur {
                lemma_search_lengths(m, entrance, s, i, cur);
            } else {
                let p = s.par[i];
                assert(s.paths[i] == s.paths[p].push(s.order[i]));
                if p < cur {
                    assert(precedes(size, s.paths[p], s.paths[cur]));
                    lemma_precedes_push(size, s.paths[p], s.paths[cur], s.order[i], b);
                } else {
                    lemma_precedes_sibling(size, s.paths[cur], s.order[i], b);
                }
            }
        }
    }
    assert forall|i: int, j: int| 0 <= i < j < t.order.len() implies #[trigger] t.order[i]
        != #[trigger] t.order[j] by {
        if j < n {
            assert(s.order[i] != s.order[j]);
        } else {
            assert(s.order[i] != b);
        }
    }
    assert forall|i: int| 0 <= i < t.order.len() implies (#[trigger] t.paths[i]).len()
        <= t.paths[t.done].len() + 1 by {
        if i < n {
            assert(s.paths[i].len() <= s.paths[s.done].len() + 1);
        }
    }
    assert forall|i: int, e: Direction| 0 <= i < t.done implies #[trigger] t.expanded_at(
        m,
        i,
        e,
    ) by {
        assert(s.expanded_at(m, i, e));
        if m.passage(s.order[i] as int, e) {
            let j = choose|j: int|
                #![trigger s.order[j]]
                0 <= j < s.order.len() && s.order[j] as int == m.neighbor(
                    s.order[i] as int,
                    e,
                ).unwrap() && no_later(size, s.paths[j], s.paths[i].push(s.order[j]));
            assert(t.order[j] == s.order[j]);
            assert(t.paths[j] == s.paths[j]);
            assert(t.paths[i] == s.paths[i]);
        }
    }
    assert forall|e: Direction|
        t.done < t.order.len() && e.spec_index() < t.sides implies #[trigger] t.expanded_at(
        m,
        t.done,
        e,
    ) by {
        if e.spec_index() < s.sides {
            assert(s.expanded_at(m, s.done, e));
            if m.passage(s.order[cur] as int, e) {
                let j = choose|j: int|
                    #![trigger s.order[j]]
                    0 <= j < s.order.len() && s.order[j] as int == m.neighbor(
                        s.order[cur] as int,
                        e,
                    ).unwrap() && no_later(size, s.paths[j], s.paths[cur].push(s.order[j]));
                assert(t.order[j] == s.order[j]);
                assert(t.paths[j] == s.paths[j]);
                assert(t.paths[cur] == s.paths[cur]);
            }
        } else {
            assert(e == d);
            assert(t.order[n] == b);
            assert(t.paths[n] == t.paths[cur].push(t.order[n]));
        }
    }
    assert forall|j: int| 0 < j < t.order.len() && #[trigger] t.par[j] == t.done implies side_rank(
        size,
        t.order[t.done] as int,
        t.order[j] as int,
    ) < t.sides by {
        if j < n {
            assert(s.par[j] == s.done);
        }
    }
}

/// What holds of a search still holds after the next side of the cell at `done` has
/// led to a cell that was found before.
pub proof fn lemma_search_seen(m: LabView, entrance: usize, s: Search, d: Direction, b: usize)
    requires
        s.inv(m, entrance),
        s.done < s.order.len(),
        d.spec_index() == s.sides,
        m.neighbor(s.order[s.done] as int, d) == Some(b as int),
        s.order.contains(b),
    ensures
        s.skip_side().inv(m, entrance),
{
    let t = s.skip_side();
    let j = choose|j: int| 0 <= j < s.order.len() && s.order[j] == b;
    lemma_search_known(m, entrance, s, d, j);
    assert(s.found(m, s.done, d));
    lemma_search_side(m, entrance, s, d);
}

/// What holds of a search still holds after the next side of the cell at `done` has
/// led nowhere.
pub proof fn lemma_search_blocked(m: LabView, entrance: usize, s: Search, d: Direction)
    requires
        s.inv(m, entrance),
        s.done < s.order.len(),
        d.spec_index() == s.sides,
        !m.passage(s.order[s.done] as int, d),
    ensures
        s.skip_side().inv(m, entrance),
{
    lemma_search_side(m, entrance, s, d);
}

/// Once side `d` of the cell at `done` is settled, the search may go on to the next side.
proof fn lemma_search_side(m: LabView, entrance: usize, s: Search, d: Direction)
    requires
        s.inv(m, entrance),
        s.done < s.order.len(),
        d.spec_index() == s.sides,
        s.expanded_at(m, s.done, d),
    ensures
        s.skip_side().inv(m, entrance),
{
    let t = s.skip_side();
    assert forall|i: int, e: Direction| 0 <= i < t.done implies #[trigger] t.expanded_at(
        m,
        i,
        e,
    ) by {
        assert(s.expanded_at(m, i, e));
    }
    assert forall|e: Direction|
        t.done < t.order.len() && e.spec_index() < t.sides implies #[trigger] t.expanded_at(
        m,
        t.done,
        e,
    ) by {
        if e.spec_index() < s.sides {
            assert(s.expanded_at(m, s.done, e));
        } else {
            assert(e == d);
        }
    }
}

/// What holds of a search still holds when it goes on to the next found cell, all
/// four sides of the cell at `done` examined.
pub proof fn lemma_search_advance(m: LabView, entrance: usize, s: Search)
    requires
        s.inv(m, entrance),
        s.done < s.order.len(),
        s.sides == 4,
    ensures
        s.advance().inv(m, entrance),
{
    let t = s.advance();
    assert forall|i: int, e: Direction| 0 <= i < t.done implies #[trigger] t.expanded_at(
        m,
        i,
        e,
    ) by {
        if i < s.done {
            assert(s.expanded_at(m, i, e));
        } else {
            assert(s.expanded_at(m, s.done, e));
        }
    }
    if t.done < t.order.len() {
        assert forall|i: int| 0 <= i < t.order.len() implies (#[trigger] t.paths[i]).len()
            <= t.paths[t.done].len() + 1 by {
            assert(s.paths[i].len() <= s.paths[s.done].len() + 1);
            lemma_search_lengths(m, entrance, s, s.done, t.done);
        }
    }
    assert forall|i: int| 0 < i < t.order.len() implies {
        let p = #[trigger] t.par[i];
        0 <= p < i && p <= t.done && t.paths[i] == t.paths[p].push(t.order[i])
    } by {
        let p = s.par[i];
        assert(0 <= p < i && p <= s.done && s.paths[i] == s.paths[p].push(s.order[i]));
    }
    assert forall|j: int| 0 < j < t.order.len() && #[trigger] t.par[j] == t.done implies side_rank(
        m.size as int,
        t.order[t.done] as int,
        t.order[j] as int,
    ) < t.sides by {
        let p = s.par[j];
        assert(p <= s.done);
    }
}

/// The `k`-th cell of a walk from the entrance, for `k` below the length of the walk
/// of the cell at `done`, has been found, and its walk is no later than the walk's
/// first `k + 1` cells.
pub proof fn lemma_search_prefix(m: LabView, entrance: usize, s: Search, q: Seq<usize>, k: int) -> (j:
    int)
    requires
        s.inv(m, entrance),
        s.done < s.order.len(),
        m.is_walk(q),
        q[0] == entrance,
        0 <= k < q.len(),
        k + 1 <= s.paths[s.done].len(),
    ensures
        0 <= j < s.order.len(),
        s.order[j] == q[k],
        no_later(m.size as int, s.paths[j], q.take(k + 1)),
    decreases k,
{
    let size = m.size as int;
    if k == 0 {
        assert(q.take(1) =~= seq![entrance]);
        0
    } else {
        let i = lemma_search_prefix(m, entrance, s, q, k - 1);
        lemma_search_lengths(m, entrance, s, i, i);
        assert(s.paths[i].len() <= k);
        if i >= s.done {
            lemma_search_lengths(m, entrance, s, s.done, i);
            assert(false);
        }
        assert(m.step_at(q, k - 1));
        let d = lemma_step_side(m, q[k - 1] as int, q[k] as int);
        assert(s.expanded_at(m, i, d));
        let j = choose|j: int|
            #![trigger s.order[j]]
            0 <= j < s.order.len() && s.order[j] as int == m.neighbor(s.order[i] as int, d).unwrap()
                && no_later(size, s.paths[j], s.paths[i].push(s.order[j]));
        lemma_no_later_push(size, s.paths[i], q.take(k), q[k]);
        assert(q.take(k).push(q[k]) =~= q.take(k + 1));
        lemma_no_later_trans(size, s.paths[j], s.paths[i].push(q[k]), q.take(k + 1));
        j
    }
}

/// The walk of the cell at `done` is no later than any walk from the entrance to it.
pub proof fn lemma_search_least(m: LabView, entrance: usize, s: Search, q: Seq<usize>)
    requires
        s.inv(m, entrance),
        s.done < s.order.len(),
        m.connects(q, entrance as int, s.order[s.done] as int),
    ensures
        no_later(m.size as int, s.paths[s.done], q),
{
    if q.len() <= s.paths[s.done].len() {
        let j = lemma_search_prefix(m, entrance, s, q, q.len() - 1);
        assert(q.take(q.len() as int) =~= q);
        if j < s.done {
            assert(s.order[j] != s.order[s.done]);
        } else if j > s.done {
            assert(s.order[s.done] != s.order[j]);
        }
    }
}

/// Once every found cell has had all its sides examined, every cell of every walk
/// from the entrance has been found.
pub proof fn lemma_search_exhausted(m: LabView, entrance: usize, s: Search, q: Seq<usize>, k: int)
    requires
        s.inv(m, entrance),
        s.done == s.order.len(),
        m.is_walk(q),
        q[0] == entrance,
        0 <= k < q.len(),
    ensures
        s.order.contains(q[k]),
    decreases k,
{
    if k == 0 {
        assert(s.order[0] == q[0]);
    } else {
        lemma_search_exhausted(m, entrance, s, q, k - 1);
        let i = choose|i: int| 0 <= i < s.order.len() && s.order[i] == q[k - 1];
        assert(m.step_at(q, k - 1));
        let d = lemma_step_side(m, q[k - 1] as int, q[k] as int);
        assert(s.expanded_at(m, i, d));
        let j = choose|j: int|
            #![trigger s.order[j]]
            0 <= j < s.order.len() && s.order[j] as int == m.neighbor(s.order[i] as int, d).unwrap()
                && no_later(m.size as int, s.paths[j], s.paths[i].push(s.order[j]));
        assert(s.order[j] == q[k]);
    }
}

} // verus!
