//! Counting the walls between cells that are open on both tiles.

use crate::lab::{lemma_lab_neighbor, Direction, LabTile, LabView};
use crate::walls::lemma_pair_update;
use vstd::prelude::*;

verus! {

/// A finite set of numbers below `n` has at most `n` elements.
pub proof fn lemma_bounded_set(s: Set<usize>, n: nat)
    requires
        s.finite(),
        forall|v: usize| s.contains(v) ==> v < n,
    ensures
        s.len() <= n,
    decreases n,
{
    if n == 0 {
        assert(s =~= Set::<usize>::empty());
    } else if n - 1 > usize::MAX {
        lemma_bounded_set(s, (n - 1) as nat);
    } else {
        let last = (n - 1) as usize;
        lemma_bounded_set(s.remove(last), (n - 1) as nat);
    }
}

/// The wall between cell `c` and the cell beyond its side `d` is missing on both tiles.
pub open spec fn pair_open(m: LabView, c: int, d: Direction) -> bool {
    m.neighbor(c, d) matches Some(b) && !m.wall(c, d) && !m.wall(b, d.spec_opposite())
}

/// How many of the walls to the right of and below cell `c` are missing on both tiles.
pub open spec fn open_pairs_at(m: LabView, c: int) -> nat {
    (if pair_open(m, c, Direction::Right) {
        1nat
    } else {
        0nat
    }) + (if pair_open(m, c, Direction::Bottom) {
        1nat
    } else {
        0nat
    })
}

/// The number of walls missing on both tiles to the right of and below the first `k` cells.
pub open spec fn open_pairs_below(m: LabView, k: nat) -> nat
    decreases k,
{
    if k == 0 {
        0
    } else {
        open_pairs_below(m, (k - 1) as nat) + open_pairs_at(m, k - 1)
    }
}

/// The number of walls between two cells that are missing on both tiles. Each such
/// wall is counted once, at the cell to its left or above it.
pub open spec fn open_pairs(m: LabView) -> nat {
    open_pairs_below(m, m.tiles.len())
}

/// Where one cell counts `extra` open pairs more and every other cell as many as
/// before, the first `k` cells count `extra` more if that cell is among them.
proof fn lemma_open_pairs_change(m: LabView, m2: LabView, x: int, extra: nat, k: nat)
    requires
        0 <= x,
        forall|c: int| 0 <= c < k && c != x ==> open_pairs_at(m2, c) == open_pairs_at(m, c),
        open_pairs_at(m2, x) == open_pairs_at(m, x) + extra,
    ensures
        open_pairs_below(m2, k) == open_pairs_below(m, k) + (if x < k {
            extra
        } else {
            0nat
        }),
    decreases k,
{
    if k > 0 {
        lemma_open_pairs_change(m, m2, x, extra, (k - 1) as nat);
    }
}

/// With every wall standing no wall pair is open.
pub proof fn lemma_open_pairs_closed(m: LabView, k: nat)
    requires
        m.wf(),
        m.all_closed(),
        k <= m.tiles.len(),
    ensures
        open_pairs_below(m, k) == 0,
    decreases k,
{
    if k > 0 {
        lemma_open_pairs_closed(m, (k - 1) as nat);
        assert(m.tiles[k - 1] == LabTile::walled());
    }
}

/// Removing a wall that stood on both tiles opens one more pair.
pub proof fn lemma_open_pairs_grow(m: LabView, a: int, d: Direction)
    requires
        m.wf(),
        m.neighbor(a, d) is Some,
        m.wall(a, d),
        m.wall(m.neighbor(a, d).unwrap(), d.spec_opposite()),
    ensures
        open_pairs(m.with_wall_pair(a, d, false)) == open_pairs(m) + 1,
{
    let b = m.neighbor(a, d).unwrap();
    let o = d.spec_opposite();
    let m2 = m.with_wall_pair(a, d, false);
    lemma_lab_neighbor(m, a, d);
    lemma_pair_update(m, a, d, false);
    let x = if d == Direction::Right || d == Direction::Bottom {
        a
    } else {
        b
    };
    let e = if d == Direction::Right || d == Direction::Bottom {
        d
    } else {
        o
    };
    assert(m2.neighbor(x, e) == m.neighbor(x, e));
    assert(pair_open(m2, x, e));
    assert(!pair_open(m, x, e));
    assert forall|c: int, f: Direction|
        m.is_cell(c) && (f == Direction::Right || f == Direction::Bottom) && !(c == x && f == e)
        implies pair_open(m2, c, f) == pair_open(m, c, f) by {
        assert(m2.neighbor(c, f) == m.neighbor(c, f));
        if m.neighbor(c, f) is Some {
            let y = m.neighbor(c, f).unwrap();
            lemma_lab_neighbor(m, c, f);
            assert(m.apart_from_pair(a, d, c, f));
            assert(m.apart_from_pair(a, d, y, f.spec_opposite()));
            assert(m2.wall(c, f) == m.wall(c, f));
            assert(m2.wall(y, f.spec_opposite()) == m.wall(y, f.spec_opposite()));
        }
    }
    assert forall|c: int| 0 <= c < m.tiles.len() && c != x implies open_pairs_at(m2, c)
        == open_pairs_at(m, c) by {
        assert(pair_open(m2, c, Direction::Right) == pair_open(m, c, Direction::Right));
        assert(pair_open(m2, c, Direction::Bottom) == pair_open(m, c, Direction::Bottom));
    }
    let e2 = if e == Direction::Right {
        Direction::Bottom
    } else {
        Direction::Right
    };
    assert(pair_open(m2, x, e2) == pair_open(m, x, e2));
    assert(open_pairs_at(m2, x) == open_pairs_at(m, x) + 1);
    lemma_open_pairs_change(m, m2, x, 1, m.tiles.len());
    assert(m2.tiles.len() == m.tiles.len());
}

/// Removing a wall on the border opens no pair.
pub proof fn lemma_open_pairs_border(m: LabView, a: int, d: Direction)
    requires
        m.wf(),
        m.is_cell(a),
        m.neighbor(a, d) is None,
    ensures
        open_pairs(m.with_wall(a, d, false)) == open_pairs(m),
{
    let m2 = m.with_wall(a, d, false);
    assert forall|c: int| 0 <= c < m.tiles.len() && c != a implies open_pairs_at(m2, c)
        == open_pairs_at(m, c) by {
        assert(m2.neighbor(c, Direction::Right) == m.neighbor(c, Direction::Right));
        assert(m2.neighbor(c, Direction::Bottom) == m.neighbor(c, Direction::Bottom));
        if m.neighbor(c, Direction::Right) is Some {
            lemma_lab_neighbor(m, c, Direction::Right);
        }
        if m.neighbor(c, Direction::Bottom) is Some {
            lemma_lab_neighbor(m, c, Direction::Bottom);
        }
    }
    assert(open_pairs_at(m2, a) == open_pairs_at(m, a)) by {
        assert(m2.neighbor(a, Direction::Right) == m.neighbor(a, Direction::Right));
        assert(m2.neighbor(a, Direction::Bottom) == m.neighbor(a, Direction::Bottom));
        if m.neighbor(a, Direction::Right) is Some {
            lemma_lab_neighbor(m, a, Direction::Right);
        }
        if m.neighbor(a, Direction::Bottom) is Some {
            lemma_lab_neighbor(m, a, Direction::Bottom);
        }
    }
    lemma_open_pairs_change(m, m2, a, 0, m.tiles.len());
}

/// The wall between cell `c` and the cell beyond its side `d` stands on both tiles.
pub open spec fn pair_standing(m: LabView, c: int, d: Direction) -> bool {
    m.neighbor(c, d) matches Some(b) && m.wall(c, d) && m.wall(b, d.spec_opposite())
}

/// How many of the walls to the right of and below cell `c` stand on both tiles.
pub open spec fn standing_pairs_at(m: LabView, c: int) -> nat {
    (if pair_standing(m, c, Direction::Right) {
        1nat
    } else {
        0nat
    }) + (if pair_standing(m, c, Direction::Bottom) {
        1nat
    } else {
        0nat
    })
}

/// The number of walls standing on both tiles to the right of and below the first
/// `k` cells.
pub open spec fn standing_pairs_below(m: LabView, k: nat) -> nat
    decreases k,
{
    if k == 0 {
        0
    } else {
        standing_pairs_below(m, (k - 1) as nat) + standing_pairs_at(m, k - 1)
    }
}

/// The number of walls between two cells that stand on both tiles. Each such wall is
/// counted once, at the cell to its left or above it.
pub open spec fn standing_pairs(m: LabView) -> nat {
    standing_pairs_below(m, m.tiles.len())
}

/// Where one cell counts one standing pair more and every other cell as many as
/// before, the first `k` cells count one more if that cell is among them.
proof fn lemma_standing_pairs_change(m: LabView, m2: LabView, x: int, k: nat)
    requires
        0 <= x,
        forall|c: int| 0 <= c < k && c != x ==> standing_pairs_at(m2, c) == standing_pairs_at(m, c),
        standing_pairs_at(m2, x) == standing_pairs_at(m, x) + 1,
    ensures
        standing_pairs_below(m2, k) == standing_pairs_below(m, k) + (if x < k {
            1nat
        } else {
            0nat
        }),
    decreases k,
{
    if k > 0 {
        lemma_standing_pairs_change(m, m2, x, (k - 1) as nat);
    }
}

/// Putting back, on both tiles, a wall that was missing on the tile of `a` makes one
/// more wall stand on both tiles.
pub proof fn lemma_standing_pairs_grow(m: LabView, a: int, d: Direction)
    requires
        m.wf(),
        m.neighbor(a, d) is Some,
        !m.wall(a, d),
    ensures
        standing_pairs(m.with_wall_pair(a, d, true)) == standing_pairs(m) + 1,
{
    let b = m.neighbor(a, d).unwrap();
    let o = d.spec_opposite();
    let m2 = m.with_wall_pair(a, d, true);
    lemma_lab_neighbor(m, a, d);
    lemma_pair_update(m, a, d, true);
    let x = if d == Direction::Right || d == Direction::Bottom {
        a
    } else {
        b
    };
    let e = if d == Direction::Right || d == Direction::Bottom {
        d
    } else {
        o
    };
    assert(m2.neighbor(x, e) == m.neighbor(x, e));
    assert(pair_standing(m2, x, e));
    assert(!pair_standing(m, x, e));
    assert forall|c: int, f: Direction|
        m.is_cell(c) && (f == Direction::Right || f == Direction::Bottom) && !(c == x && f == e)
        implies pair_standing(m2, c, f) == pair_standing(m, c, f) by {
        assert(m2.neighbor(c, f) == m.neighbor(c, f));
        if m.neighbor(c, f) is Some {
            let y = m.neighbor(c, f).unwrap();
            lemma_lab_neighbor(m, c, f);
            assert(m.apart_from_pair(a, d, c, f));
            assert(m.apart_from_pair(a, d, y, f.spec_opposite()));
            assert(m2.wall(c, f) == m.wall(c, f));
            assert(m2.wall(y, f.spec_opposite()) == m.wall(y, f.spec_opposite()));
        }
    }
    assert forall|c: int| 0 <= c < m.tiles.len() && c != x implies standing_pairs_at(m2, c)
        == standing_pairs_at(m, c) by {
        assert(pair_standing(m2, c, Direction::Right) == pair_standing(m, c, Direction::Right));
        assert(pair_standing(m2, c, Direction::Bottom) == pair_standing(m, c, Direction::Bottom));
    }
    let other = if e == Direction::Right {
        Direction::Bottom
    } else {
        Direction::Right
    };
    assert(pair_standing(m2, x, other) == pair_standing(m, x, other));
    assert(standing_pairs_at(m2, x) == standing_pairs_at(m, x) + 1);
    lemma_standing_pairs_change(m, m2, x, m.tiles.len());
    assert(m2.tiles.len() == m.tiles.len());
}

/// A finite set that holds exactly the numbers below `n` has `n` elements.
pub proof fn lemma_full_set(s: Set<usize>, n: nat)
    requires
        s.finite(),
        n <= usize::MAX + 1,
        forall|v: usize| s.contains(v) <==> v < n,
    ensures
        s.len() == n,
    decreases n,
{
    if n == 0 {
        assert(s =~= Set::<usize>::empty());
    } else {
        let last = (n - 1) as usize;
        lemma_full_set(s.remove(last), (n - 1) as nat);
    }
}

} // verus!
