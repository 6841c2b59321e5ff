//! The labyrinth itself: sides, tiles, the grid and its walls.

use crate::geometry::{lemma_coordinates, lemma_neighbor, neighbor_of};
use vstd::prelude::*;

verus! {

/// One of the four sides of a tile, in the order top, right, bottom, left.
#[derive(Clone, Copy, Debug, PartialEq, Eq, Structural)]
pub enum Direction {
    Top,
    Right,
    Bottom,
    Left,
}

impl Direction {
    /// Position of the side in the order top, right, bottom, left.
    pub open spec fn spec_index(self) -> usize {
        match self {
            Direction::Top => 0,
            Direction::Right => 1,
            Direction::Bottom => 2,
            Direction::Left => 3,
        }
    }

    /// The side at position `i`, for `i` below four.
    pub open spec fn spec_from_index(i: usize) -> Option<Direction> {
        if i == 0 {
            Some(Direction::Top)
        } else if i == 1 {
            Some(Direction::Right)
        } else if i == 2 {
            Some(Direction::Bottom)
        } else if i == 3 {
            Some(Direction::Left)
        } else {
            None
        }
    }

    /// The side that faces this one: top and bottom, left and right.
    pub open spec fn spec_opposite(self) -> Direction {
        match self {
            Direction::Top => Direction::Bottom,
            Direction::Right => Direction::Left,
            Direction::Bottom => Direction::Top,
            Direction::Left => Direction::Right,
        }
    }

    /// Position of the side in the order top, right, bottom, left.
    #[verifier::when_used_as_spec(spec_index)]
    pub fn index(self) -> (i: usize)
        ensures
            i == self.spec_index(),
    {
        match self {
            Direction::Top => 0,
            Direction::Right => 1,
            Direction::Bottom => 2,
            Direction::Left => 3,
        }
    }

    /// The side at position `i`; none for a position of four or more.
    #[verifier::when_used_as_spec(spec_from_index)]
    pub fn from_index(i: usize) -> (d: Option<Direction>)
        ensures
            d == Direction::spec_from_index(i),
    {
        if i == 0 {
            Some(Direction::Top)
        } else if i == 1 {
            Some(Direction::Right)
        } else if i == 2 {
            Some(Direction::Bottom)
        } else if i == 3 {
            Some(Direction::Left)
        } else {
            None
        }
    }

    /// The side that faces this one.
    #[verifier::when_used_as_spec(spec_opposite)]
    pub fn opposite(self) -> (o: Direction)
        ensures
            o == self.spec_opposite(),
    {
        match self {
            Direction::Top => Direction::Bottom,
            Direction::Right => Direction::Left,
            Direction::Bottom => Direction::Top,
            Direction::Left => Direction::Right,
        }
    }
}

/// Why a labyrinth could not be built or a cell could not be addressed.
#[derive(Clone, Copy, Debug, PartialEq, Eq, Structural)]
pub enum LabError {
    /// The side length is zero, or its square does not fit the machine's index type.
    InvalidSize,
    /// A cell index is not below the number of cells, or a side index is not below four.
    IndexOutOfRange,
}

/// One cell of the labyrinth: a flag per side, `true` where a wall stands.
#[derive(Clone, Copy, Debug, PartialEq, Eq, Structural)]
pub struct LabTile {
    pub top: bool,
    pub right: bool,
    pub bottom: bool,
    pub left: bool,
}

impl LabTile {
    /// The tile with a wall on every side.
    pub open spec fn walled() -> LabTile {
        LabTile { top: true, right: true, bottom: true, left: true }
    }

    /// Whether a wall stands on side `d`.
    pub open spec fn wall(self, d: Direction) -> bool {
        match d {
            Direction::Top => self.top,
            Direction::Right => self.right,
            Direction::Bottom => self.bottom,
            Direction::Left => self.left,
        }
    }

    /// The tile with the flag of side `d` replaced.
    pub open spec fn with_wall(self, d: Direction, present: bool) -> LabTile {
        match d {
            Direction::Top => LabTile { top: present, ..self },
            Direction::Right => LabTile { right: present, ..self },
            Direction::Bottom => LabTile { bottom: present, ..self },
            Direction::Left => LabTile { left: present, ..self },
        }
    }

    /// Whether at least one side has no wall.
    pub open spec fn has_opening(self) -> bool {
        !self.top || !self.right || !self.bottom || !self.left
    }

    /// The tile with a wall on every side.
    pub fn closed() -> (t: LabTile)
        ensures
            t == LabTile::walled(),
    {
        LabTile { top: true, right: true, bottom: true, left: true }
    }

    /// Whether a wall stands on side `d`.
    pub fn has_wall(&self, d: Direction) -> (present: bool)
        ensures
            present == self.wall(d),
    {
        match d {
            Direction::Top => self.top,
            Direction::Right => self.right,
            Direction::Bottom => self.bottom,
            Direction::Left => self.left,
        }
    }

    /// The flag of the side at position `direction`; an error for a position of four or more.
    pub fn get_wall(&self, direction: usize) -> (r: Result<bool, LabError>)
        ensures
            match Direction::spec_from_index(direction) {
                Some(d) => r == Ok::<bool, LabError>(self.wall(d)),
                None => r == Err::<bool, LabError>(LabError::IndexOutOfRange),
            },
    {
        match Direction::from_index(direction) {
            Some(d) => Ok(self.has_wall(d)),
            None => Err(LabError::IndexOutOfRange),
        }
    }

    /// Sets or removes the flag of side `d`.
    pub fn set_wall(&mut self, d: Direction, present: bool)
        ensures
            *final(self) == old(self).with_wall(d, present),
    {
        match d {
            Direction::Top => {
                self.top = present;
            },
            Direction::Right => {
                self.right = present;
            },
            Direction::Bottom => {
                self.bottom = present;
            },
            Direction::Left => {
                self.left = present;
            },
        }
    }

    /// Whether at least one side has no wall.
    pub fn is_open(&self) -> (open: bool)
        ensures
            open == self.has_opening(),
    {
        !self.top || !self.right || !self.bottom || !self.left
    }
}

/// What a labyrinth is, mathematically: the side length and the tiles row by row.
pub struct LabView {
    pub size: nat,
    pub tiles: Seq<LabTile>,
}

impl LabView {
    /// The side length is positive, the number of cells fits the machine's index type,
    /// and there is one tile per cell.
    pub open spec fn wf(self) -> bool {
        &&& self.size >= 1
        &&& self.size * self.size <= usize::MAX
        &&& self.tiles.len() == self.size * self.size
    }

    /// Whether `c` is the index of a cell.
    pub open spec fn is_cell(self, c: int) -> bool {
        0 <= c < self.tiles.len()
    }

    /// Whether a wall stands on side `d` of cell `c`.
    pub open spec fn wall(self, c: int, d: Direction) -> bool {
        self.tiles[c].wall(d)
    }

    /// The cell beyond side `d` of cell `c`; none on the border and for an index that is no cell.
    pub open spec fn neighbor(self, c: int, d: Direction) -> Option<int> {
        if self.is_cell(c) {
            neighbor_of(self.size as int, c, d)
        } else {
            None
        }
    }

    /// The labyrinth with one flag replaced; unchanged if `c` is no cell.
    pub open spec fn with_wall(self, c: int, d: Direction, present: bool) -> LabView {
        if self.is_cell(c) {
            LabView { size: self.size, tiles: self.tiles.update(c, self.tiles[c].with_wall(d, present)) }
        } else {
            self
        }
    }

    /// The labyrinth with the wall between cell `c` and its neighbor on side `d` set or
    /// removed on both tiles; unchanged if there is no such neighbor.
    pub open spec fn with_wall_pair(self, c: int, d: Direction, present: bool) -> LabView {
        match self.neighbor(c, d) {
            Some(b) => self.with_wall(c, d, present).with_wall(b, d.spec_opposite(), present),
            None => self,
        }
    }

    /// Every tile has all four walls.
    pub open spec fn all_closed(self) -> bool {
        forall|c: int| 0 <= c < self.tiles.len() ==> #[trigger] self.tiles[c] == LabTile::walled()
    }

    /// The two flags of the wall on side `d` of cell `c` agree, if that wall is shared
    /// with a neighbor.
    pub open spec fn paired_at(self, c: int, d: Direction) -> bool {
        self.neighbor(c, d) matches Some(b) ==> self.wall(c, d) == self.wall(b, d.spec_opposite())
    }

    /// Every wall between two cells is recorded alike on both tiles.
    pub open spec fn paired(self) -> bool {
        forall|c: int, d: Direction| #[trigger] self.paired_at(c, d)
    }

    /// Same side length and number of tiles.
    pub open spec fn same_shape(self, other: LabView) -> bool {
        self.size == other.size && self.tiles.len() == other.tiles.len()
    }
}

/// In a well-formed labyrinth the cells are the indices below the square of the side,
/// and a neighbor of a cell is a cell whose neighbor on the opposite side is the first.
pub proof fn lemma_lab_neighbor(m: LabView, c: int, d: Direction)
    requires
        m.wf(),
        m.neighbor(c, d) is Some,
    ensures
        m.is_cell(c),
        m.is_cell(m.neighbor(c, d).unwrap()),
        m.neighbor(c, d).unwrap() != c,
        m.neighbor(m.neighbor(c, d).unwrap(), d.spec_opposite()) == Some(c),
{
    lemma_neighbor(m.size as int, c, d);
}

/// A square labyrinth: `size * size` tiles, numbered row by row from the top left.
#[derive(Debug)]
pub struct Lab {
    tiles: Vec<LabTile>,
    size: usize,
}

impl View for Lab {
    type V = LabView;

    closed spec fn view(&self) -> LabView {
        LabView { size: self.size as nat, tiles: self.tiles@ }
    }
}

impl Lab {
    /// A labyrinth of side `size` with every wall standing.
    pub fn new(size: usize) -> (r: Result<Lab, LabError>)
        ensures
            r is Ok <==> size >= 1 && size * size <= usize::MAX,
            r matches Ok(lab) ==> lab@.wf() && lab@.size == size && lab@.all_closed(),
            r matches Err(e) ==> e == LabError::InvalidSize,
    {
        if size == 0 {
            return Err(LabError::InvalidSize);
        }
        match size.checked_mul(size) {
            None => Err(LabError::InvalidSize),
            Some(n) => {
                let mut tiles: Vec<LabTile> = Vec::new();
                let mut i: usize = 0;
                while i < n
                    invariant
                        i <= n,
                        tiles@.len() == i,
                        forall|c: int| 0 <= c < i ==> #[trigger] tiles@[c] == LabTile::walled(),
                    decreases n - i,
                {
                    tiles.push(LabTile::closed());
                    i = i + 1;
                }
                Ok(Lab { tiles, size })
            },
        }
    }

    /// The number of cells along one side.
    pub fn size(&self) -> (s: usize)
        ensures
            s == self@.size,
    {
        self.size
    }

    /// The number of cells.
    pub fn cell_count(&self) -> (n: usize)
        ensures
            n == self@.tiles.len(),
    {
        self.tiles.len()
    }

    /// The tile of cell `cell`.
    pub fn tile(&self, cell: usize) -> (r: Result<LabTile, LabError>)
        ensures
            self@.is_cell(cell as int) ==> r == Ok::<LabTile, LabError>(self@.tiles[cell as int]),
            !self@.is_cell(cell as int) ==> r == Err::<LabTile, LabError>(
                LabError::IndexOutOfRange,
            ),
    {
        if cell < self.tiles.len() {
            Ok(self.tiles[cell])
        } else {
            Err(LabError::IndexOutOfRange)
        }
    }

    /// Whether a wall stands on the side at position `direction` of cell `cell`.
    pub fn wall(&self, cell: usize, direction: usize) -> (r: Result<bool, LabError>)
        ensures
            r is Ok <==> self@.is_cell(cell as int) && Direction::spec_from_index(direction) is Some,
            r matches Ok(present) ==> present == self@.wall(
                cell as int,
                Direction::spec_from_index(direction).unwrap(),
            ),
            r matches Err(e) ==> e == LabError::IndexOutOfRange,
    {
        if cell >= self.tiles.len() {
            return Err(LabError::IndexOutOfRange);
        }
        match Direction::from_index(direction) {
            Some(d) => Ok(self.tiles[cell].has_wall(d)),
            None => Err(LabError::IndexOutOfRange),
        }
    }

    /// Sets or removes the flag on the side at position `direction` of cell `cell`, and
    /// nothing else: the neighbor's flag for the same wall is left as it is.
    pub fn set_wall(&mut self, cell: usize, direction: usize, present: bool) -> (r: Result<
        (),
        LabError,
    >)
        ensures
            r is Ok <==> old(self)@.is_cell(cell as int) && Direction::spec_from_index(direction)
                is Some,
            r is Ok ==> final(self)@ == old(self)@.with_wall(
                cell as int,
                Direction::spec_from_index(direction).unwrap(),
                present,
            ),
            r matches Err(e) ==> e == LabError::IndexOutOfRange && final(self)@ == old(self)@,
            old(self)@.wf() ==> final(self)@.wf(),
    {
        if cell >= self.tiles.len() {
            return Err(LabError::IndexOutOfRange);
        }
        match Direction::from_index(direction) {
            Some(d) => {
                self.put_wall(cell, d, present);
                Ok(())
            },
            None => Err(LabError::IndexOutOfRange),
        }
    }

    /// Whether a wall stands on side `d` of cell `cell`.
    pub fn has_wall(&self, cell: usize, d: Direction) -> (present: bool)
        requires
            self@.is_cell(cell as int),
        ensures
            present == self@.wall(cell as int, d),
    {
        self.tiles[cell].has_wall(d)
    }

    /// Replaces the flag on side `d` of cell `cell`.
    pub fn put_wall(&mut self, cell: usize, d: Direction, present: bool)
        requires
            old(self)@.is_cell(cell as int),
        ensures
            final(self)@ == old(self)@.with_wall(cell as int, d, present),
    {
        let mut t = self.tiles[cell];
        t.set_wall(d, present);
        self.tiles.set(cell, t);
    }

    /// The cell beyond side `d` of `cell`, if `cell` is a cell and not on that border.
    pub fn neighbor(&self, cell: usize, d: Direction) -> (r: Option<usize>)
        requires
            self@.wf(),
        ensures
            r is Some <==> self@.neighbor(cell as int, d) is Some,
            r matches Some(b) ==> self@.neighbor(cell as int, d) == Some(b as int)
                && self@.is_cell(b as int),
    {
        if cell >= self.tiles.len() {
            return None;
        }
        let x = cell % self.size;
        let y = cell / self.size;
        proof {
            lemma_coordinates(self.size as int, cell as int);
            if self@.neighbor(cell as int, d) is Some {
                lemma_neighbor(self.size as int, cell as int, d);
            }
        }
        match d {
            Direction::Top => if y > 0 {
                Some(cell - self.size)
            } else {
                None
            },
            Direction::Right => if x < self.size - 1 {
                Some(cell + 1)
            } else {
                None
            },
            Direction::Bottom => if y < self.size - 1 {
                Some(cell + self.size)
            } else {
                None
            },
            Direction::Left => if x > 0 {
                Some(cell - 1)
            } else {
                None
            },
        }
    }

    /// Sets or removes the wall between `cell` and its neighbor on side `d`, on both
    /// tiles; does nothing where there is no such neighbor.
    pub fn set_wall_pair(&mut self, cell: usize, d: Direction, present: bool)
        requires
            old(self)@.wf(),
        ensures
            final(self)@ == old(self)@.with_wall_pair(cell as int, d, present),
            final(self)@.wf(),
    {
        match self.neighbor(cell, d) {
            Some(b) => {
                self.put_wall(cell, d, present);
                self.put_wall(b, d.opposite(), present);
            },
            None => {},
        }
    }

    /// Puts every wall back.
    pub fn close_all(&mut self)
        ensures
            final(self)@.same_shape(old(self)@),
            final(self)@.all_closed(),
    {
        let n = self.tiles.len();
        let mut i: usize = 0;
        while i < n
            invariant
                i <= n,
                self.tiles@.len() == n,
                self.size == old(self).size,
                forall|c: int| 0 <= c < i ==> #[trigger] self.tiles@[c] == LabTile::walled(),
            decreases n - i,
        {
            self.tiles.set(i, LabTile::closed());
            i = i + 1;
        }
    }

    /// Whether every wall between two cells is recorded alike on both of their tiles.
    pub fn is_consistent(&self) -> (ok: bool)
        requires
            self@.wf(),
        ensures
            ok == self@.paired(),
    {
        self.find_unpaired().is_none()
    }

    /// The first cell, and its first side, whose wall the neighbor's tile records
    /// differently; none if the labyrinth is consistent.
    pub fn find_unpaired(&self) -> (r: Option<(usize, Direction)>)
        requires
            self@.wf(),
        ensures
            r is None <==> self@.paired(),
            r matches Some((c, d)) ==> {
                &&& self@.is_cell(c as int)
                &&& !self@.paired_at(c as int, d)
                &&& forall|c2: int, d2: Direction|
                    0 <= c2 < c || (c2 == c && d2.spec_index() < d.spec_index())
                        ==> #[trigger] self@.paired_at(c2, d2)
            },
    {
        let n = self.tiles.len();
        let mut c: usize = 0;
        while c < n
            invariant
                c <= n,
                n == self@.tiles.len(),
                self@.wf(),
                forall|c2: int, d2: Direction| 0 <= c2 < c ==> #[trigger] self@.paired_at(c2, d2),
            decreases n - c,
        {
            let mut k: usize = 0;
            while k < 4
                invariant
                    k <= 4,
                    c < n,
                    n == self@.tiles.len(),
                    self@.wf(),
                    forall|c2: int, d2: Direction|
                        0 <= c2 < c ==> #[trigger] self@.paired_at(c2, d2),
                    forall|d2: Direction|
                        d2.spec_index() < k ==> #[trigger] self@.paired_at(c as int, d2),
                decreases 4 - k,
            {
                let d = Direction::from_index(k).unwrap();
                match self.neighbor(c, d) {
                    Some(b) => {
                        if self.has_wall(c, d) != self.has_wall(b, d.opposite()) {
                            assert(!self@.paired_at(c as int, d));
                            return Some((c, d));
                        }
                    },
                    None => {},
                }
                k = k + 1;
            }
            c = c + 1;
        }
        proof {
            assert forall|c2: int, d2: Direction| #[trigger] self@.paired_at(c2, d2) by {
                if !(0 <= c2 < n) {
                    assert(self@.neighbor(c2, d2) is None);
                }
            }
        }
        None
    }

    /// A separate labyrinth with the same walls.
    pub fn duplicate(&self) -> (copy: Lab)
        ensures
            copy@ == self@,
    {
        let n = self.tiles.len();
        let mut tiles: Vec<LabTile> = Vec::new();
        let mut i: usize = 0;
        while i < n
            invariant
                i <= n,
                n == self.tiles@.len(),
                tiles@.len() == i,
                forall|c: int| 0 <= c < i ==> #[trigger] tiles@[c] == self.tiles@[c],
            decreases n - i,
        {
            tiles.push(self.tiles[i]);
            i = i + 1;
        }
        assert(tiles@ =~= self.tiles@);
        Lab { tiles, size: self.size }
    }
}

impl Clone for Lab {
    fn clone(&self) -> (copy: Lab)
        ensures
            copy@ == self@,
    {
        self.duplicate()
    }
}

} // verus!
