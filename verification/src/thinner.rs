//! Putting walls back without cutting the entrance off from the exit.

use crate::graph::{lemma_reachable_monotone, lemma_reachable_sym};
use crate::lab::{Direction, Lab, LabView};
use crate::pairs::{lemma_standing_pairs_grow, standing_pairs};
use crate::random::pick_below;
use crate::routes::lemma_routes_stay;
use crate::solver::is_reachable;
use crate::walls::{
    lemma_at_least_as_open_trans, lemma_changed_in_pairs_refl, lemma_changed_in_pairs_trans,
    lemma_pair_update, lemma_pairs_stay,
};
use vstd::prelude::*;

verus! {

/// The wall between cell `c` and the cell beyond its side `d` is missing on `c`'s
/// tile, and with it put back on both tiles `exit` can still be reached from
/// `entrance`.
pub open spec fn can_reinsert(m: LabView, entrance: int, exit: int, c: int, d: Direction) -> bool {
    &&& m.neighbor(c, d) is Some
    &&& !m.wall(c, d)
    &&& m.with_wall_pair(c, d, true).reachable(entrance, exit)
}

/// Puts the wall on side `d` of `cell` back, on both tiles, if it is a wall between
/// two cells that is missing and `exit` can be reached from `entrance` with it in
/// place. The wall is tried on a copy first; the labyrinth itself changes only once
/// the copy has passed.
pub fn try_reinsert_wall(
    lab: &mut Lab,
    entrance: usize,
    exit: usize,
    cell: usize,
    d: Direction,
) -> (added: bool)
    requires
        old(lab)@.wf(),
    ensures
        final(lab)@.wf(),
        added <==> can_reinsert(old(lab)@, entrance as int, exit as int, cell as int, d),
        added ==> final(lab)@ == old(lab)@.with_wall_pair(cell as int, d, true),
        !added ==> final(lab)@ == old(lab)@,
{
    match lab.neighbor(cell, d) {
        None => false,
        Some(_) => {
            if lab.has_wall(cell, d) {
                return false;
            }
            let mut scratch = lab.duplicate();
            scratch.set_wall_pair(cell, d, true);
            if is_reachable(&scratch, entrance, exit) {
                lab.set_wall_pair(cell, d, true);
                true
            } else {
                false
            }
        },
    }
}

/// What thinning makes of a labyrinth: walls are only added, and only between cells
/// and on both tiles; if `exit` could be reached from `entrance` it still can, and
/// if it could not, nothing has changed.
pub open spec fn thinned(old: LabView, new: LabView, entrance: int, exit: int) -> bool {
    &&& old.changed_in_pairs(new)
    &&& old.at_least_as_open(new)
    &&& old.reachable(entrance, exit) ==> new.reachable(entrance, exit)
    &&& !old.reachable(entrance, exit) ==> new == old
}

/// Putting one wall back where `can_reinsert` allows it is a thinning.
pub proof fn lemma_reinsert_thins(m: LabView, entrance: int, exit: int, c: int, d: Direction)
    requires
        m.wf(),
        can_reinsert(m, entrance, exit, c, d),
    ensures
        thinned(m, m.with_wall_pair(c, d, true), entrance, exit),
        m.reachable(entrance, exit),
        standing_pairs(m.with_wall_pair(c, d, true)) == standing_pairs(m) + 1,
{
    lemma_pair_update(m, c, d, true);
    lemma_standing_pairs_grow(m, c, d);
    lemma_reachable_monotone(m.with_wall_pair(c, d, true), m, entrance, exit);
}

/// A thinning of a thinning is a thinning.
pub proof fn lemma_thinned_trans(m1: LabView, m2: LabView, m3: LabView, entrance: int, exit: int)
    requires
        m1.wf(),
        thinned(m1, m2, entrance, exit),
        thinned(m2, m3, entrance, exit),
    ensures
        thinned(m1, m3, entrance, exit),
{
    lemma_changed_in_pairs_trans(m1, m2, m3);
    lemma_at_least_as_open_trans(m1, m2, m3);
}

/// After a thinning of a labyrinth whose walls are recorded alike on both tiles,
/// entrance and exit can each be reached from the other if the exit could be
/// reached from the entrance before.
pub proof fn lemma_thinned_keeps_both_ways(m1: LabView, m2: LabView, entrance: int, exit: int)
    requires
        m1.wf(),
        m1.paired(),
        m1.reachable(entrance, exit),
        thinned(m1, m2, entrance, exit),
    ensures
        m2.paired(),
        m2.reachable(entrance, exit),
        m2.reachable(exit, entrance),
{
    lemma_pairs_stay(m1, m2);
    lemma_reachable_sym(m2, entrance, exit);
}

/// The labyrinth after the attempts `picks`, made one after the other: each names a
/// cell and a side, and puts the wall there back if `can_reinsert` allows it in the
/// labyrinth as the attempts before have left it.
pub open spec fn after_attempts(
    m: LabView,
    entrance: int,
    exit: int,
    picks: Seq<(usize, Direction)>,
) -> LabView
    decreases picks.len(),
{
    if picks.len() == 0 {
        m
    } else {
        let before = after_attempts(m, entrance, exit, picks.drop_last());
        let pick = picks.last();
        if can_reinsert(before, entrance, exit, pick.0 as int, pick.1) {
            before.with_wall_pair(pick.0 as int, pick.1, true)
        } else {
            before
        }
    }
}

/// The number of the attempts `picks` that put a wall back.
pub open spec fn walls_added(
    m: LabView,
    entrance: int,
    exit: int,
    picks: Seq<(usize, Direction)>,
) -> nat
    decreases picks.len(),
{
    if picks.len() == 0 {
        0
    } else {
        let before = after_attempts(m, entrance, exit, picks.drop_last());
        let pick = picks.last();
        walls_added(m, entrance, exit, picks.drop_last()) + (if can_reinsert(
            before,
            entrance,
            exit,
            pick.0 as int,
            pick.1,
        ) {
            1nat
        } else {
            0nat
        })
    }
}

/// `new` and `added` are what the attempts `picks` make of `old`: as many attempts as
/// there are cells, each on a cell of the labyrinth.
pub open spec fn is_thinning_outcome(
    old: LabView,
    new: LabView,
    added: nat,
    entrance: int,
    exit: int,
    picks: Seq<(usize, Direction)>,
) -> bool {
    &&& picks.len() == old.tiles.len()
    &&& forall|i: int| 0 <= i < picks.len() ==> (#[trigger] picks[i]).0 < old.tiles.len()
    &&& new == after_attempts(old, entrance, exit, picks)
    &&& added == walls_added(old, entrance, exit, picks)
}

/// Tries as many times as there are cells to put a wall back: each time on a side,
/// chosen at random, of a cell chosen at random, and only if `exit` can still be
/// reached from `entrance` with the wall in place. Returns the number of walls put
/// back: by so many the number of walls that stand on both tiles has grown. Which
/// attempts are made depends on chance; the labyrinth and the number returned are
/// what these attempts, made one after the other, give.
pub fn reinsert_walls(lab: &mut Lab, entrance: usize, exit: usize) -> (added: usize)
    requires
        old(lab)@.wf(),
    ensures
        final(lab)@.wf(),
        thinned(old(lab)@, final(lab)@, entrance as int, exit as int),
        old(lab)@.paired() ==> final(lab)@.paired(),
        old(lab)@.routes_unique() ==> final(lab)@.routes_unique(),
        exists|picks: Seq<(usize, Direction)>|
            is_thinning_outcome(
                old(lab)@,
                final(lab)@,
                added as nat,
                entrance as int,
                exit as int,
                picks,
            ),
        standing_pairs(final(lab)@) == standing_pairs(old(lab)@) + added,
        added <= old(lab)@.tiles.len(),
        added > 0 ==> old(lab)@.reachable(entrance as int, exit as int),
{
    let ghost before = lab@;
    let n = lab.cell_count();
    let mut rng = rand::thread_rng();
    let mut added: usize = 0;
    let mut attempt: usize = 0;
    let ghost mut picks = Seq::<(usize, Direction)>::empty();
    proof {
        lemma_changed_in_pairs_refl(before);
        let s = before.size as int;
        assert(n >= 1) by (nonlinear_arith)
            requires
                n == s * s,
                s >= 1,
        ;
    }
    while attempt < n
        invariant
            before.wf(),
            lab@.wf(),
            n == before.tiles.len(),
            n >= 1,
            attempt <= n,
            added <= attempt,
            thinned(before, lab@, entrance as int, exit as int),
            standing_pairs(lab@) == standing_pairs(before) + added,
            added > 0 ==> before.reachable(entrance as int, exit as int),
            picks.len() == attempt,
            forall|i: int| 0 <= i < picks.len() ==> (#[trigger] picks[i]).0 < n,
            lab@ == after_attempts(before, entrance as int, exit as int, picks),
            added == walls_added(before, entrance as int, exit as int, picks),
        decreases n - attempt,
    {
        let cell = pick_below(&mut rng, n);
        let side = pick_below(&mut rng, 4);
        let d = Direction::from_index(side).unwrap();
        let ghost now = lab@;
        proof {
            let tried = picks;
            picks = picks.push((cell, d));
            assert(picks.drop_last() =~= tried);
        }
        if try_reinsert_wall(lab, entrance, exit, cell, d) {
            proof {
                lemma_reinsert_thins(now, entrance as int, exit as int, cell as int, d);
                lemma_thinned_trans(before, now, lab@, entrance as int, exit as int);
            }
            added = added + 1;
        }
        attempt = attempt + 1;
    }
    proof {
        if before.paired() {
            lemma_pairs_stay(before, lab@);
        }
        if before.routes_unique() {
            lemma_routes_stay(before, lab@);
        }
        assert(is_thinning_outcome(
            before,
            lab@,
            added as nat,
            entrance as int,
            exit as int,
            picks,
        ));
    }
    added
}

} // verus!
