//! The order in which a breadth-first search finds walks: shorter first, and among
//! walks of one length the one that turns to the earlier side.

use crate::geometry::{in_grid, lemma_neighbor, neighbor_of};
use crate::lab::Direction;
use vstd::prelude::*;

verus! {

/// Position, in the order top, right, bottom, left, of the side of `a` beyond which
/// its neighbor `b` lies.
pub open spec fn side_rank(size: int, a: int, b: int) -> int {
    if b == a - size {
        0
    } else if b == a + 1 {
        1
    } else if b == a + size {
        2
    } else {
        3
    }
}

/// The side taken by the `k`-th move of `p`.
pub open spec fn turn(size: int, p: Seq<usize>, k: int) -> int {
    side_rank(size, p[k] as int, p[k + 1] as int)
}

/// `p` and `q` share their first `k + 1` cells, and from there `p` leaves through an
/// earlier side than `q`.
pub open spec fn branches_before(size: int, p: Seq<usize>, q: Seq<usize>, k: int) -> bool {
    &&& 0 <= k < p.len() - 1
    &&& k < q.len() - 1
    &&& forall|i: int| #![trigger p[i]] 0 <= i <= k ==> p[i] == q[i]
    &&& turn(size, p, k) < turn(size, q, k)
}

/// `p` comes strictly before `q`: it is shorter, or as long and smaller in the
/// dictionary order of the sides taken.
pub open spec fn precedes(size: int, p: Seq<usize>, q: Seq<usize>) -> bool {
    p.len() < q.len() || (p.len() == q.len() && exists|k: int| branches_before(size, p, q, k))
}

/// `p` is `q` or comes before it.
pub open spec fn no_later(size: int, p: Seq<usize>, q: Seq<usize>) -> bool {
    p == q || precedes(size, p, q)
}

/// The neighbor on side `d` has the rank of `d`.
pub proof fn lemma_side_rank(size: int, a: int, d: Direction)
    requires
        size >= 1,
        in_grid(size, a),
        neighbor_of(size, a, d) is Some,
    ensures
        side_rank(size, a, neighbor_of(size, a, d).unwrap()) == d.spec_index(),
{
    lemma_neighbor(size, a, d);
}

/// If `p` comes before `q` and `q` before `r`, then `p` comes before `r`.
pub proof fn lemma_precedes_trans(size: int, p: Seq<usize>, q: Seq<usize>, r: Seq<usize>)
    requires
        precedes(size, p, q),
        precedes(size, q, r),
    ensures
        precedes(size, p, r),
{
    if p.len() == q.len() && q.len() == r.len() {
        let k1 = choose|k: int| branches_before(size, p, q, k);
        let k2 = choose|k: int| branches_before(size, q, r, k);
        if k1 <= k2 {
            assert forall|i: int| #![trigger p[i]] 0 <= i <= k1 implies p[i] == r[i] by {
                assert(p[i] == q[i]);
                assert(q[i] == r[i]);
            }
            if k1 < k2 {
                assert(q[k1] == r[k1]);
                assert(q[k1 + 1] == r[k1 + 1]);
            }
            assert(branches_before(size, p, r, k1));
        } else {
            assert forall|i: int| #![trigger p[i]] 0 <= i <= k2 implies p[i] == r[i] by {
                assert(p[i] == q[i]);
                assert(q[i] == r[i]);
            }
            assert(p[k2] == q[k2]);
            assert(p[k2 + 1] == q[k2 + 1]);
            assert(branches_before(size, p, r, k2));
        }
    }
}

/// If `p` is no later than `q` and `q` no later than `r`, then `p` is no later than `r`.
pub proof fn lemma_no_later_trans(size: int, p: Seq<usize>, q: Seq<usize>, r: Seq<usize>)
    requires
        no_later(size, p, q),
        no_later(size, q, r),
    ensures
        no_later(size, p, r),
{
    if p != q && q != r {
        lemma_precedes_trans(size, p, q, r);
    }
}

/// Of two sequences, one cannot come before the other and the other before it.
pub proof fn lemma_precedes_asym(size: int, p: Seq<usize>, q: Seq<usize>)
    requires
        precedes(size, p, q),
    ensures
        !precedes(size, q, p),
        p != q,
{
    if p.len() == q.len() {
        let k1 = choose|k: int| branches_before(size, p, q, k);
        if p == q {
            assert(turn(size, p, k1) == turn(size, q, k1));
        }
        if precedes(size, q, p) {
            let k2 = choose|k: int| branches_before(size, q, p, k);
            if k1 < k2 {
                assert(q[k1] == p[k1]);
                assert(q[k1 + 1] == p[k1 + 1]);
            } else if k2 < k1 {
                assert(p[k2] == q[k2]);
                assert(p[k2 + 1] == q[k2 + 1]);
            } else {
                assert(p[k1] == q[k1]);
            }
            assert(false);
        }
    }
}

/// Two sequences, neither of which comes after the other, are the same.
pub proof fn lemma_no_later_antisym(size: int, p: Seq<usize>, q: Seq<usize>)
    requires
        no_later(size, p, q),
        no_later(size, q, p),
    ensures
        p == q,
{
    if p != q {
        lemma_precedes_asym(size, p, q);
    }
}

/// Extending both sequences by one cell keeps the first before the second.
pub proof fn lemma_precedes_push(size: int, p: Seq<usize>, q: Seq<usize>, v: usize, w: usize)
    requires
        precedes(size, p, q),
    ensures
        precedes(size, p.push(v), q.push(w)),
{
    if p.len() == q.len() {
        let k = choose|k: int| branches_before(size, p, q, k);
        let pv = p.push(v);
        let qw = q.push(w);
        assert forall|i: int| #![trigger pv[i]] 0 <= i <= k implies pv[i] == qw[i] by {
            assert(p[i] == q[i]);
        }
        assert(pv[k + 1] == p[k + 1]);
        assert(qw[k + 1] == q[k + 1]);
        assert(pv[k] == p[k]);
        assert(qw[k] == q[k]);
        assert(branches_before(size, pv, qw, k));
    }
}

/// Extending both sequences by the same cell keeps the first no later than the second.
pub proof fn lemma_no_later_push(size: int, p: Seq<usize>, q: Seq<usize>, v: usize)
    requires
        no_later(size, p, q),
    ensures
        no_later(size, p.push(v), q.push(v)),
{
    if p != q {
        lemma_precedes_push(size, p, q, v, v);
    }
}

/// Of two extensions of one sequence, the one through the earlier side comes first.
pub proof fn lemma_precedes_sibling(size: int, p: Seq<usize>, v: usize, w: usize)
    requires
        p.len() >= 1,
        side_rank(size, p.last() as int, v as int) < side_rank(size, p.last() as int, w as int),
    ensures
        precedes(size, p.push(v), p.push(w)),
{
    let k = p.len() - 1;
    assert(branches_before(size, p.push(v), p.push(w), k));
}

} // verus!
