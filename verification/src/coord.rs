use vstd::prelude::*;

verus! {

/// A grid position. Row and column `u32::MAX` together mark an unset position.
#[derive(Clone, Copy, Debug, PartialEq, Eq, Structural)]
pub struct Coord {
    pub row: u32,
    pub col: u32,
}

impl Coord {
    /// The position in the given row and column.
    pub fn new(row: u32, col: u32) -> (c: Coord)
        ensures
            c.row == row,
            c.col == col,
    {
        Coord { row: row, col: col }
    }

    /// The sum of two positions, each component wrapping around at `u32::MAX`.
    pub open spec fn plus(self, other: Coord) -> Coord {
        Coord {
            row: self.row.wrapping_add(other.row),
            col: self.col.wrapping_add(other.col),
        }
    }
}

impl Default for Coord {
    /// The unset position.
    fn default() -> (c: Coord)
        ensures
            c.row == u32::MAX,
            c.col == u32::MAX,
    {
        Coord { row: u32::MAX, col: u32::MAX }
    }
}

impl AsRef<Coord> for Coord {
    /// The position itself.
    fn as_ref(&self) -> (c: &Coord)
        ensures
            *c == *self,
    {
        self
    }
}

impl std::ops::Add<Coord> for Coord {
    type Output = Coord;

    /// The sum of two positions, each component wrapping around.
    fn add(self, other: Coord) -> (c: Coord) {
        Coord { row: self.row.wrapping_add(other.row), col: self.col.wrapping_add(other.col) }
    }
}

impl vstd::std_specs::ops::AddSpecImpl<Coord> for Coord {
    /// `+` on positions is what `add_spec` says.
    open spec fn obeys_add_spec() -> bool {
        true
    }

    /// Any two positions can be added.
    open spec fn add_req(self, other: Coord) -> bool {
        true
    }

    /// What `+` gives: the sum with wrap-around.
    open spec fn add_spec(self, other: Coord) -> Coord {
        self.plus(other)
    }
}

/// The offsets of the four neighbors: up, left, right, down. A step of minus
/// one is written as `u32::MAX`, so that it wraps.
pub open spec fn dir_offset(i: int) -> Coord {
    if i == 0 {
        Coord { row: u32::MAX, col: 0 }
    } else if i == 1 {
        Coord { row: 0, col: u32::MAX }
    } else if i == 2 {
        Coord { row: 0, col: 1 }
    } else {
        Coord { row: 1, col: 0 }
    }
}

/// The `i`-th neighbor of a position.
pub open spec fn neighbor(c: Coord, i: int) -> Coord {
    c.plus(dir_offset(i))
}

/// Whether two positions are one step apart, vertically or horizontally.
pub open spec fn adjacent(a: Coord, b: Coord) -> bool {
    ||| a.col == b.col && (a.row + 1 == b.row || b.row + 1 == a.row)
    ||| a.row == b.row && (a.col + 1 == b.col || b.col + 1 == a.col)
}

/// The offset of the `i`-th direction.
pub fn direction(i: usize) -> (d: Coord)
    requires
        i < 4,
    ensures
        d == dir_offset(i as int),
{
    if i == 0 {
        Coord::new(u32::MAX, 0)
    } else if i == 1 {
        Coord::new(0, u32::MAX)
    } else if i == 2 {
        Coord::new(0, 1)
    } else {
        Coord::new(1, 0)
    }
}

/// A neighbor whose components stay below `u32::MAX` is one step away, and
/// every position one step away from `c` is one of its four neighbors.
pub proof fn lemma_neighbor_adjacent(c: Coord)
    requires
        c.row < u32::MAX,
        c.col < u32::MAX,
    ensures
        forall|i: int|
            0 <= i < 4 && (#[trigger] neighbor(c, i)).row < u32::MAX && neighbor(c, i).col < u32::MAX
                ==> adjacent(c, neighbor(c, i)),
        forall|d: Coord| #[trigger]
            adjacent(c, d) ==> exists|i: int| 0 <= i < 4 && neighbor(c, i) == d,
{
    assert forall|d: Coord| #[trigger] adjacent(c, d) implies exists|i: int|
        0 <= i < 4 && neighbor(c, i) == d by {
        if d.col == c.col && d.row + 1 == c.row {
            assert(neighbor(c, 0) == d);
        } else if d.row == c.row && d.col + 1 == c.col {
            assert(neighbor(c, 1) == d);
        } else if d.row == c.row && c.col + 1 == d.col {
            assert(neighbor(c, 2) == d);
        } else {
            assert(neighbor(c, 3) == d);
        }
    }
}

/// Stepping in a direction and then in the opposite one leads back, and no
/// step stays in place.
pub proof fn lemma_neighbor_back(c: Coord, i: int)
    requires
        0 <= i < 4,
    ensures
        neighbor(neighbor(c, i), 3 - i) == c,
        neighbor(c, i) != c,
{
}

} // verus!
