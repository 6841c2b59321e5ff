//! Changes to walls that keep the two flags of each wall alike.

use crate::lab::{lemma_lab_neighbor, Direction, LabView};
use vstd::prelude::*;

verus! {

impl LabView {
    /// The flag on side `d` of cell `c` is the same in `after`, or it belongs to a
    /// wall between two cells and in `after` agrees with the flag on the other side
    /// of that wall.
    pub open spec fn flag_kept_in_pair(self, after: LabView, c: int, d: Direction) -> bool {
        match self.neighbor(c, d) {
            None => self.is_cell(c) ==> after.wall(c, d) == self.wall(c, d),
            Some(b) => after.wall(c, d) != self.wall(c, d) ==> after.wall(b, d.spec_opposite())
                == after.wall(c, d),
        }
    }

    /// `after` has the shape of `self`, the same walls on the border, and between
    /// cells only changes that leave the two flags of the changed wall alike.
    pub open spec fn changed_in_pairs(self, after: LabView) -> bool {
        &&& self.same_shape(after)
        &&& forall|c: int, d: Direction| #[trigger] self.flag_kept_in_pair(after, c, d)
    }

    /// The flags on sides `d` of `c` and `e` of `x` are different flags, and so are
    /// the flag on `e` of `x` and the one that faces `d` of `c`.
    pub open spec fn apart_from_pair(self, c: int, d: Direction, x: int, e: Direction) -> bool {
        &&& !(x == c && e == d)
        &&& !(self.neighbor(c, d) == Some(x) && e == d.spec_opposite())
    }
}

/// What setting or removing the wall between `c` and its neighbor on side `d` does.
pub proof fn lemma_pair_update(m: LabView, c: int, d: Direction, present: bool)
    requires
        m.wf(),
        m.neighbor(c, d) is Some,
    ensures
        m.with_wall_pair(c, d, present).wf(),
        m.changed_in_pairs(m.with_wall_pair(c, d, present)),
        m.with_wall_pair(c, d, present).wall(c, d) == present,
        m.with_wall_pair(c, d, present).wall(m.neighbor(c, d).unwrap(), d.spec_opposite())
            == present,
        forall|x: int, e: Direction|
            m.is_cell(x) && m.apart_from_pair(c, d, x, e) ==> #[trigger] m.with_wall_pair(
                c,
                d,
                present,
            ).wall(x, e) == m.wall(x, e),
        forall|x: int|
            m.is_cell(x) && x != c && m.neighbor(c, d) != Some(x) ==> #[trigger] m.with_wall_pair(
                c,
                d,
                present,
            ).tiles[x] == m.tiles[x],
        !present ==> m.with_wall_pair(c, d, present).at_least_as_open(m),
        present ==> m.at_least_as_open(m.with_wall_pair(c, d, present)),
{
    let b = m.neighbor(c, d).unwrap();
    let o = d.spec_opposite();
    lemma_lab_neighbor(m, c, d);
    let m1 = m.with_wall(c, d, present);
    let m2 = m1.with_wall(b, o, present);
    assert(m2 == m.with_wall_pair(c, d, present));
    assert forall|x: int, e: Direction| #[trigger] m.flag_kept_in_pair(m2, x, e) by {
        if m.neighbor(x, e) is Some {
            lemma_lab_neighbor(m, x, e);
        }
    }
}

/// A labyrinth left as it is has changed in pairs only.
pub proof fn lemma_changed_in_pairs_refl(m: LabView)
    ensures
        m.changed_in_pairs(m),
{
    assert forall|c: int, d: Direction| #[trigger] m.flag_kept_in_pair(m, c, d) by {}
}

/// Changes in pairs, one after the other, are changes in pairs.
pub proof fn lemma_changed_in_pairs_trans(m1: LabView, m2: LabView, m3: LabView)
    requires
        m1.wf(),
        m1.changed_in_pairs(m2),
        m2.changed_in_pairs(m3),
    ensures
        m1.changed_in_pairs(m3),
{
    assert forall|c: int, d: Direction| #[trigger] m1.flag_kept_in_pair(m3, c, d) by {
        assert(m1.flag_kept_in_pair(m2, c, d));
        assert(m2.flag_kept_in_pair(m3, c, d));
        assert(m1.neighbor(c, d) == m2.neighbor(c, d));
        if m1.neighbor(c, d) is Some {
            let b = m1.neighbor(c, d).unwrap();
            let o = d.spec_opposite();
            lemma_lab_neighbor(m1, c, d);
            assert(m2.neighbor(b, o) == m1.neighbor(b, o));
            assert(m2.flag_kept_in_pair(m3, b, o));
        }
    }
}

/// Where walls are recorded alike on both tiles and change only in pairs, they are
/// recorded alike afterwards.
pub proof fn lemma_pairs_stay(m1: LabView, m2: LabView)
    requires
        m1.wf(),
        m1.paired(),
        m1.changed_in_pairs(m2),
    ensures
        m2.paired(),
{
    assert forall|c: int, d: Direction| #[trigger] m2.paired_at(c, d) by {
        assert(m1.paired_at(c, d));
        assert(m1.flag_kept_in_pair(m2, c, d));
        assert(m1.neighbor(c, d) == m2.neighbor(c, d));
        if m1.neighbor(c, d) is Some {
            let b = m1.neighbor(c, d).unwrap();
            lemma_lab_neighbor(m1, c, d);
            assert(m1.flag_kept_in_pair(m2, b, d.spec_opposite()));
        }
    }
}

/// If the third labyrinth has a wall only where the second has one, and the second
/// only where the first has one, the third has a wall only where the first has one.
pub proof fn lemma_at_least_as_open_trans(m3: LabView, m2: LabView, m1: LabView)
    requires
        m3.at_least_as_open(m2),
        m2.at_least_as_open(m1),
    ensures
        m3.at_least_as_open(m1),
{
    assert forall|c: int, d: Direction| m3.is_cell(c) && #[trigger] m3.wall(c, d) implies m1.wall(
        c,
        d,
    ) by {
        assert(m2.wall(c, d));
    }
}

/// A labyrinth with every wall standing records every wall alike on both tiles.
pub proof fn lemma_closed_paired(m: LabView)
    requires
        m.wf(),
        m.all_closed(),
    ensures
        m.paired(),
{
    assert forall|c: int, d: Direction| #[trigger] m.paired_at(c, d) by {
        if m.neighbor(c, d) is Some {
            lemma_lab_neighbor(m, c, d);
            let b = m.neighbor(c, d).unwrap();
            assert(m.tiles[c] == crate::lab::LabTile::walled());
            assert(m.tiles[b] == crate::lab::LabTile::walled());
        }
    }
}

} // verus!
