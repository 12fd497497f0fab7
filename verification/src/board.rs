use vstd::prelude::*;
use crate::color::{start_color, Color};
use crate::coord::Coord;

verus! {

/// The colors of a rectangular grid, stored row by row.
pub struct Board {
    pub width: nat,
    pub height: nat,
    pub colors: Seq<Color>,
}

impl Board {
    /// Every cell has a color.
    pub open spec fn wf(self) -> bool {
        self.colors.len() == self.width * self.height
    }

    /// Whether a position lies on the grid.
    pub open spec fn valid(self, c: Coord) -> bool {
        c.row < self.height && c.col < self.width
    }

    /// The place of a cell in the row-by-row order.
    pub open spec fn index(self, c: Coord) -> int {
        c.row * self.width + c.col
    }

    /// The color of a cell.
    pub open spec fn color(self, c: Coord) -> Color {
        self.colors[self.index(c)]
    }
}

/// Whether the grid has a cell of the start color.
pub open spec fn has_start(b: Board) -> bool {
    exists|c: Coord| b.valid(c) && #[trigger] b.color(c) == start_color()
}

/// Whether `c` comes before `s` when the grid is read row by row.
pub open spec fn comes_before(c: Coord, s: Coord) -> bool {
    c.row < s.row || (c.row == s.row && c.col < s.col)
}

/// Whether `s` is the first cell of the start color when the grid is read row
/// by row.
pub open spec fn first_start(b: Board, s: Coord) -> bool {
    &&& b.valid(s)
    &&& b.color(s) == start_color()
    &&& forall|c: Coord| b.valid(c) && comes_before(c, s) ==> #[trigger] b.color(c) != start_color()
}

/// The position of the `i`-th cell of a grid that is `width` cells wide.
pub open spec fn coord_of(width: nat, i: int) -> Coord {
    Coord { row: (i / width as int) as u32, col: (i % width as int) as u32 }
}

/// The index of a cell on the grid lies within the grid's size.
pub proof fn lemma_index_bounds(b: Board, c: Coord)
    requires
        b.valid(c),
    ensures
        0 <= b.index(c) < b.width * b.height,
        c.row * b.width <= b.index(c),
{
    let r = c.row as int;
    let w = b.width as int;
    let h = b.height as int;
    assert(r * w + w <= h * w) by (nonlinear_arith)
        requires
            0 <= r < h,
            0 <= w,
    ;
    assert(0 <= r * w) by (nonlinear_arith)
        requires
            0 <= r,
            0 <= w,
    ;
}

/// Two cells of the grid with the same index are the same cell.
pub proof fn lemma_index_injective(b: Board, c: Coord, d: Coord)
    requires
        b.valid(c),
        b.valid(d),
        b.index(c) == b.index(d),
    ensures
        c == d,
{
    let w = b.width as int;
    let (r1, c1, r2, c2) = (c.row as int, c.col as int, d.row as int, d.col as int);
    assert(r1 == r2) by (nonlinear_arith)
        requires
            r1 * w + c1 == r2 * w + c2,
            0 <= c1 < w,
            0 <= c2 < w,
    ;
}

/// Every index below the grid's size is the index of exactly one cell.
pub proof fn lemma_coord_of(b: Board, i: int)
    requires
        0 <= i < b.width * b.height,
        b.width <= u32::MAX,
        b.height <= u32::MAX,
    ensures
        b.valid(coord_of(b.width, i)),
        b.index(coord_of(b.width, i)) == i,
{
    let w = b.width as int;
    let h = b.height as int;
    assert(w > 0) by (nonlinear_arith)
        requires
            0 <= i < w * h,
            0 <= w,
    ;
    vstd::arithmetic::div_mod::lemma_fundamental_div_mod(i, w);
    vstd::arithmetic::div_mod::lemma_mod_bound(i, w);
    vstd::arithmetic::div_mod::lemma_div_pos_is_pos(i, w);
    let q = i / w;
    let r = i % w;
    assert(q < h) by (nonlinear_arith)
        requires
            i == w * q + r,
            0 <= r < w,
            i < w * h,
            0 <= q,
    ;
    assert(w * q == q * w) by (nonlinear_arith);
}

} // verus!
