use vstd::prelude::*;
use bmp::Image;
use crate::board::{lemma_index_bounds, Board};
use crate::cell::{Pixel, PixelType};
use crate::color::{grey, step_weight, Color};
use crate::coord::{neighbor, Coord};
use crate::error::{MazeError, MazeErrorKind, MazeResult};
use crate::image::{
    image_get_height, image_get_pixel, image_get_width, image_height, image_indexable, image_pixel,
    image_width,
};
use crate::keycomb::{bit_at, comb_bits, comb_equal, start_key_comb, with_bit, zeros, KeyComb};
use crate::region::cell_kind;

verus! {

/// A cost that no recorded entry reaches: it stands for "no route".
pub const MAX_DIST: u32 = u32::MAX;

/// A maze on a grid of colored cells, with what a search has found out so far:
/// the kind of each cell it has met, the keys it has met (the place of a key's
/// color in `keys` is the key's bit), the key combinations it has formed (a
/// combination is named by its place in `key_combs`), the cheapest known cost
/// for each cell and combination, and the end state it settled on.
pub struct Maze {
    pub(crate) key_width: u32,
    pub(crate) key_height: u32,
    pub(crate) width: u32,
    pub(crate) height: u32,
    pub(crate) end: Option<(Coord, usize)>,
    pub(crate) keys: Vec<Color>,
    pub(crate) key_combs: Vec<KeyComb>,
    pub(crate) pixels: Vec<Pixel>,
}

impl Maze {
    /// The colors of the grid.
    pub open(crate) spec fn board(&self) -> Board {
        Board {
            width: self.width as nat,
            height: self.height as nat,
            colors: Seq::new(self.pixels@.len(), |i: int| self.pixels@[i].color),
        }
    }

    /// The kind of each cell, row by row.
    pub open(crate) spec fn kinds(&self) -> Seq<PixelType> {
        Seq::new(self.pixels@.len(), |i: int| self.pixels@[i].p_type)
    }

    /// The recorded costs of each cell, row by row: a map from the number of a
    /// combination to the cheapest known cost of reaching the cell with it.
    pub open(crate) spec fn costs(&self) -> Seq<Map<usize, u32>> {
        Seq::new(self.pixels@.len(), |i: int| self.pixels@[i].key_dists@)
    }

    /// The colors of the keys met so far; a key's place is its bit.
    pub open(crate) spec fn registry(&self) -> Seq<Color> {
        self.keys@
    }

    /// The bits of the combinations formed so far.
    pub open(crate) spec fn pool(&self) -> Seq<Seq<bool>> {
        Seq::new(self.key_combs@.len(), |i: int| comb_bits(self.key_combs@[i]))
    }

    /// The end state that the search settled on: a cell and a combination.
    pub open(crate) spec fn end_state(&self) -> Option<(Coord, usize)> {
        self.end
    }

    /// The height and width that a region must have to be a key.
    pub open(crate) spec fn key_size(&self) -> (nat, nat) {
        (self.key_height as nat, self.key_width as nat)
    }

    /// Whether a position lies on the grid.
    pub open(crate) spec fn valid(&self, c: Coord) -> bool {
        self.board().valid(c)
    }

    /// The color of a cell.
    pub open(crate) spec fn color_at(&self, c: Coord) -> Color {
        self.board().color(c)
    }

    /// The kind of a cell.
    pub open(crate) spec fn kind_at(&self, c: Coord) -> PixelType {
        self.kinds()[self.board().index(c)]
    }

    /// The costs recorded for a cell.
    pub open(crate) spec fn costs_at(&self, c: Coord) -> Map<usize, u32> {
        self.costs()[self.board().index(c)]
    }

    /// Whether a cost is recorded for the cell and the combination.
    pub open(crate) spec fn has_cost(&self, c: Coord, k: usize) -> bool {
        self.valid(c) && self.costs_at(c).contains_key(k)
    }

    /// The cost recorded for the cell and the combination.
    pub open(crate) spec fn cost(&self, c: Coord, k: usize) -> int {
        self.costs_at(c)[k] as int
    }

    /// The grid has a cell for every position, and few enough of them to
    /// number them in 32 bits.
    pub open(crate) spec fn grid_wf(&self) -> bool {
        &&& self.pixels@.len() == self.width * self.height
        &&& self.width * self.height <= u32::MAX
    }

    /// Every cell is either unclassified or of the kind that its color and its
    /// region give it, and a region of a color that is not gray is classified
    /// as a whole.
    pub open(crate) spec fn kinds_wf(&self) -> bool {
        &&& forall|c: Coord| #[trigger]
            self.valid(c) ==> self.kind_at(c) == PixelType::UNSET || self.kind_at(c) == cell_kind(
                self.board(),
                self.key_size().0,
                self.key_size().1,
                c,
            )
        &&& forall|c: Coord, i: int|
            self.valid(c) && 0 <= i < 4 && self.valid(#[trigger] neighbor(c, i)) && self.color_at(
                neighbor(c, i),
            ) == self.color_at(c) && !grey(self.color_at(c)) ==> (self.kind_at(c) == PixelType::UNSET
                <==> self.kind_at(neighbor(c, i)) == PixelType::UNSET)
    }

    /// No color is registered twice.
    pub open(crate) spec fn registry_wf(&self) -> bool {
        self.registry().no_duplicates()
    }

    /// The bit of a registered color.
    pub open(crate) spec fn key_bit(&self, color: Color) -> int {
        self.registry().index_of(color)
    }

    /// The pool starts with the combination without keys, holds no combination
    /// twice, whatever the lengths, and no combination in it holds a bit that
    /// no key has yet. Its combinations can be numbered in a `usize`.
    pub open(crate) spec fn pool_wf(&self) -> bool {
        &&& 1 <= self.pool().len() <= usize::MAX
        &&& self.pool()[0] == zeros(8)
        &&& forall|i: int, j: int|
            0 <= i < self.pool().len() && 0 <= j < self.pool().len() && i != j ==> !comb_equal(
                #[trigger] self.pool()[i],
                #[trigger] self.pool()[j],
            )
        &&& forall|i: int, q: int|
            0 <= i < self.pool().len() && q >= self.registry().len() ==> !#[trigger] bit_at(
                self.pool()[i],
                q,
            )
    }

    /// Whether stepping onto cell `n` with combination `k` leaves one with
    /// combination `k2`: a key adds its bit, a zone asks for the bit of its
    /// color, free, start and end cells let every combination pass, and walls
    /// and unclassified cells let none.
    pub open(crate) spec fn carries(&self, k: usize, n: Coord, k2: usize) -> bool {
        let color = self.color_at(n);
        match self.kind_at(n) {
            PixelType::KEY => self.registry().contains(color) && comb_equal(
                self.pool()[k2 as int],
                with_bit(self.pool()[k as int], self.key_bit(color) as nat),
            ),
            PixelType::ZONE => k2 == k && self.registry().contains(color) && bit_at(
                self.pool()[k as int],
                self.key_bit(color),
            ),
            PixelType::FREE | PixelType::START | PixelType::END => k2 == k,
            _ => false,
        }
    }

    /// The state from which every route starts: the first cell of the start
    /// color, no key, no cost.
    pub open(crate) spec fn is_origin(&self, c: Coord, k: usize) -> bool {
        crate::board::first_start(self.board(), c) && k == 0 && self.cost(c, k) == 0
    }

    /// Whether the entry of cell `c` and combination `k` can have come from the
    /// `i`-th neighbor with combination `k0`: that neighbor has a cost for
    /// `k0`, the step from there is allowed, and it costs no more than what is
    /// recorded.
    #[verifier::opaque]
    pub open(crate) spec fn comes_from(&self, c: Coord, k: usize, i: int, k0: usize) -> bool {
        &&& 0 <= i < 4
        &&& self.has_cost(neighbor(c, i), k0)
        &&& self.cost(neighbor(c, i), k0) + step_weight(self.color_at(c)) <= self.cost(c, k)
        &&& self.carries(k0, c, k)
    }

    /// Every recorded cost is below `MAX_DIST`, belongs to a classified cell
    /// that is no wall and to a combination of the pool, and is either the
    /// origin's or comes from a neighbor.
    pub open(crate) spec fn costs_wf(&self) -> bool {
        forall|c: Coord, k: usize| #[trigger]
            self.has_cost(c, k) ==> {
                &&& k < self.pool().len()
                &&& self.cost(c, k) < MAX_DIST
                &&& self.kind_at(c) != PixelType::UNSET
                &&& self.kind_at(c) != PixelType::WALL
                &&& (self.is_origin(c, k) || exists|i: int, k0: usize| #[trigger]
                    self.comes_from(c, k, i, k0))
            }
    }

    /// The end state, if there is one, is an end cell with a recorded cost.
    pub open(crate) spec fn end_wf(&self) -> bool {
        self.end matches Some((e, k)) ==> self.has_cost(e, k) && self.kind_at(e) == PixelType::END
    }

    /// What holds of every maze between two calls.
    #[verifier::opaque]
    pub open(crate) spec fn wf(&self) -> bool {
        &&& self.grid_wf()
        &&& self.kinds_wf()
        &&& self.registry_wf()
        &&& self.pool_wf()
        &&& self.costs_wf()
        &&& self.end_wf()
    }

    /// A maze that no search has touched: nothing classified, no cost, no key,
    /// no combination but the empty one, no end state.
    pub open(crate) spec fn fresh(&self) -> bool {
        &&& forall|i: int|
            0 <= i < self.pixels@.len() ==> (#[trigger] self.pixels@[i]).p_type == PixelType::UNSET
                && self.pixels@[i].key_dists@ == Map::<usize, u32>::empty()
        &&& self.registry() == Seq::<Color>::empty()
        &&& self.pool() == seq![zeros(8)]
        &&& self.end is None
    }

    /// The invariant is the sum of its six parts.
    pub proof fn lemma_wf_parts(&self)
        ensures
            self.wf() == (self.grid_wf() && self.kinds_wf() && self.registry_wf() && self.pool_wf()
                && self.costs_wf() && self.end_wf()),
    {
        reveal(Maze::wf);
    }

    /// A maze that no search has touched meets every invariant.
    pub proof fn lemma_fresh_wf(&self)
        requires
            self.grid_wf(),
            self.fresh(),
        ensures
            self.wf(),
    {
        reveal(Maze::wf);
        assert forall|c: Coord| #[trigger] self.valid(c) implies self.kind_at(c) == PixelType::UNSET
            && self.costs_at(c) == Map::<usize, u32>::empty() by {
            lemma_index_bounds(self.board(), c);
            assert(self.pixels@[self.board().index(c)].p_type == PixelType::UNSET);
        }
        assert forall|c: Coord, i: int|
            self.valid(c) && 0 <= i < 4 && self.valid(#[trigger] neighbor(c, i)) implies (self.kind_at(c)
            == PixelType::UNSET <==> self.kind_at(neighbor(c, i)) == PixelType::UNSET) by {
            assert(self.valid(c));
        }
        assert(self.pool()[0] == zeros(8));
        assert forall|i: int, q: int|
            0 <= i < self.pool().len() && q >= self.registry().len() implies !#[trigger] bit_at(
            self.pool()[i],
            q,
        ) by {
            assert(self.pool()[i] == zeros(8));
        }
    }

    /// Whether two mazes differ at most in the kinds of their cells.
    pub open(crate) spec fn same_but_kinds(&self, other: &Maze) -> bool {
        &&& self.board() == other.board()
        &&& self.costs() == other.costs()
        &&& self.registry() == other.registry()
        &&& self.pool() == other.pool()
        &&& self.end_state() == other.end_state()
        &&& self.key_size() == other.key_size()
    }

    /// The number of columns.
    pub open(crate) spec fn spec_width(&self) -> u32 {
        self.width
    }

    /// The number of rows.
    pub open(crate) spec fn spec_height(&self) -> u32 {
        self.height
    }

    /// The number of columns.
    pub fn width(&self) -> (w: u32)
        ensures
            w == self.spec_width(),
    {
        self.width
    }

    /// The number of rows.
    pub fn height(&self) -> (h: u32)
        ensures
            h == self.spec_height(),
    {
        self.height
    }

    /// The end state that the search settled on, if any: the end cell and
    /// the number of the combination with which the route reaches it.
    pub fn end(&self) -> (r: Option<(Coord, usize)>)
        ensures
            r == self.end_state(),
    {
        self.end
    }

    /// A copy of the combination with number `k`, or `None` if the pool holds
    /// no such combination.
    pub fn key_comb(&self, k: usize) -> (r: Option<KeyComb>)
        ensures
            r is Some <==> k < self.pool().len(),
            r matches Some(c) ==> comb_bits(c) == self.pool()[k as int],
    {
        if k < self.key_combs.len() {
            Some(crate::keycomb::bits_clone(&self.key_combs[k]))
        } else {
            None
        }
    }

    /// Whether a position lies on the grid.
    pub fn is_valid(&self, c: &Coord) -> (r: bool)
        ensures
            r == self.valid(*c),
    {
        c.row < self.height && c.col < self.width
    }

    /// The place of a cell in `pixels`, or `CoordOutOfRange` for a position off
    /// the grid.
    pub fn pixel_indx(&self, c: &Coord) -> (r: MazeResult<usize>)
        requires
            self.grid_wf(),
        ensures
            self.valid(*c) ==> r == Ok::<usize, MazeError>(self.board().index(*c) as usize)
                && self.board().index(*c) < self.kinds().len(),
            !self.valid(*c) ==> r is Err && r->Err_0.kind == MazeErrorKind::CoordOutOfRange
                && r->Err_0.details@ == "The coords lie outside the grid."@,
    {
        if self.is_valid(c) {
            proof {
                lemma_index_bounds(self.board(), *c);
            }
            Ok(c.row as usize * self.width as usize + c.col as usize)
        } else {
            Err(
                MazeError::new(
                    MazeErrorKind::CoordOutOfRange,
                    "The coords lie outside the grid.".to_owned(),
                ),
            )
        }
    }

    /// The cell at a position, or `CoordOutOfRange` for a position off the grid.
    pub fn pixel_at(&self, c: &Coord) -> (r: MazeResult<&Pixel>)
        requires
            self.grid_wf(),
        ensures
            self.valid(*c) ==> r is Ok && r->Ok_0.color == self.color_at(*c) && r->Ok_0.p_type
                == self.kind_at(*c) && r->Ok_0.key_dists@ == self.costs_at(*c),
            !self.valid(*c) ==> r is Err && r->Err_0.kind == MazeErrorKind::CoordOutOfRange
                && r->Err_0.details@ == "The coords lie outside the grid."@,
    {
        match self.pixel_indx(c) {
            Ok(indx) => Ok(&self.pixels[indx]),
            Err(e) => Err(e),
        }
    }
}

/// The color of the image's pixel at a grid position.
pub open spec fn pixel_color(img: Image, c: Coord) -> Color {
    let p = image_pixel(img, c.col, c.row);
    Color { r: p.0, g: p.1, b: p.2 }
}

impl Default for Maze {
    /// A maze without cells, with keys of 20 by 20.
    fn default() -> (m: Maze)
        ensures
            m.wf(),
            m.fresh(),
            m.spec_width() == 0,
            m.spec_height() == 0,
            m.key_size() == (20nat, 20nat),
    {
        let mut key_combs: Vec<KeyComb> = Vec::new();
        key_combs.push(start_key_comb());
        let m = Maze {
            key_width: 20,
            key_height: 20,
            width: 0,
            height: 0,
            end: None,
            keys: Vec::new(),
            key_combs: key_combs,
            pixels: Vec::new(),
        };
        proof {
            assert(m.pool() =~= seq![zeros(8)]);
            assert(m.registry() =~= Seq::<Color>::empty());
            m.lemma_fresh_wf();
        }
        m
    }
}

impl Maze {
    /// The maze that an image shows: a cell for every pixel, with the pixel's
    /// color, and nothing found out yet. The image must be small enough for
    /// its pixels to be numbered in 32 bits.
    pub fn from(item: &Image) -> (m: Maze)
        requires
            image_indexable(*item),
        ensures
            m.wf(),
            m.fresh(),
            m.spec_width() == image_width(*item),
            m.spec_height() == image_height(*item),
            m.key_size() == (20nat, 20nat),
            forall|c: Coord| #[trigger] m.valid(c) ==> m.color_at(c) == pixel_color(*item, c),
    {
        let mut maze = Maze::default();
        let width = image_get_width(item);
        let height = image_get_height(item);
        let mut pixels: Vec<Pixel> = Vec::new();
        let mut row: u32 = 0;
        while row < height
            invariant
                row <= height,
                width == image_width(*item),
                height == image_height(*item),
                image_indexable(*item),
                pixels@.len() == row * width,
                forall|i: int|
                    0 <= i < pixels@.len() ==> (#[trigger] pixels@[i]).p_type == PixelType::UNSET
                        && pixels@[i].key_dists@ == Map::<usize, u32>::empty(),
                forall|c: Coord|
                    c.row < row && c.col < width ==> (#[trigger] pixels@[c.row * width + c.col]).color
                        == pixel_color(*item, c),
            decreases height - row,
        {
            let mut col: u32 = 0;
            while col < width
                invariant
                    row < height,
                    col <= width,
                    width == image_width(*item),
                    height == image_height(*item),
                    image_indexable(*item),
                    pixels@.len() == row * width + col,
                    forall|i: int|
                        0 <= i < pixels@.len() ==> (#[trigger] pixels@[i]).p_type == PixelType::UNSET
                            && pixels@[i].key_dists@ == Map::<usize, u32>::empty(),
                    forall|c: Coord|
                        (c.row < row || (c.row == row && c.col < col)) && c.col < width ==> (
                        #[trigger] pixels@[c.row * width + c.col]).color == pixel_color(*item, c),
                decreases width - col,
            {
                let ghost before = pixels@;
                let mut pixel = Pixel::default();
                pixel.color = image_get_pixel(item, col, row);
                pixels.push(pixel);
                proof {
                    assert forall|c: Coord|
                        (c.row < row || (c.row == row && c.col < col + 1)) && c.col < width implies (
                    #[trigger] pixels@[c.row * width + c.col]).color == pixel_color(*item, c) by {
                        if c.row < row {
                            lemma_row_start(c.row as int, row as int, width as int);
                            assert(pixels@[c.row * width + c.col] == before[c.row * width + c.col]);
                        } else if c.col < col {
                            assert(pixels@[c.row * width + c.col] == before[c.row * width + c.col]);
                        }
                    }
                }
                col = col + 1;
            }
            proof {
                lemma_row_start(row as int, row as int + 1, width as int);
            }
            row = row + 1;
        }
        maze.width = width;
        maze.height = height;
        maze.pixels = pixels;
        proof {
            lemma_row_start(height as int, height as int, width as int);
            assert(height * width == width * height) by (nonlinear_arith);
            assert(maze.pool() =~= seq![zeros(8)]);
            maze.lemma_fresh_wf();
            assert forall|c: Coord| #[trigger] maze.valid(c) implies maze.color_at(c) == pixel_color(
                *item,
                c,
            ) by {
                lemma_index_bounds(maze.board(), c);
                assert(maze.pixels@[c.row * width + c.col].color == pixel_color(*item, c));
            }
        }
        maze
    }

    /// The maze that an image shows, or `None` for an image with more pixels
    /// than 32 bits can number.
    pub fn checked_from(item: &Image) -> (r: Option<Maze>)
        ensures
            r is Some <==> image_indexable(*item),
            r matches Some(m) ==> {
                &&& m.wf()
                &&& m.fresh()
                &&& m.spec_width() == image_width(*item)
                &&& m.spec_height() == image_height(*item)
                &&& m.key_size() == (20nat, 20nat)
                &&& forall|c: Coord| #[trigger] m.valid(c) ==> m.color_at(c) == pixel_color(*item, c)
            },
    {
        let width = image_get_width(item);
        let height = image_get_height(item);
        assert(width * height <= 0xFFFF_FFFF * 0xFFFF_FFFF) by (nonlinear_arith)
            requires
                width <= 0xFFFF_FFFF,
                height <= 0xFFFF_FFFF,
        ;
        if width as u64 * height as u64 <= u32::MAX as u64 {
            Some(Maze::from(item))
        } else {
            None
        }
    }
}

/// Rows are stored one after the other: an earlier row ends before a later one
/// starts.
proof fn lemma_row_start(r1: int, r2: int, w: int)
    requires
        0 <= r1,
        r1 <= r2,
        0 <= w,
    ensures
        r1 * w + w <= r2 * w || r1 == r2,
        0 <= r1 * w <= r2 * w,
        (r1 + 1) * w == r1 * w + w,
{
    assert((r1 + 1) * w == r1 * w + w) by (nonlinear_arith);
    assert(0 <= r1 * w <= r2 * w) by (nonlinear_arith)
        requires
            0 <= r1 <= r2,
            0 <= w,
    ;
    if r1 < r2 {
        assert(r1 * w + w <= r2 * w) by (nonlinear_arith)
            requires
                0 <= r1,
                r1 + 1 <= r2,
                0 <= w,
        ;
    }
}

} // verus!
