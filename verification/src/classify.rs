use vstd::prelude::*;
use std::collections::VecDeque;
use crate::board::{coord_of, lemma_coord_of, lemma_index_bounds, lemma_index_injective, Board};
use crate::cell::PixelType;
use crate::color::{grey, is_grey, Color};
use crate::coord::{adjacent, direction, lemma_neighbor_adjacent, neighbor, Coord};
use crate::maze::Maze;
use crate::region::{
    cell_kind, connected, fills_box, lemma_closed_set_covers, lemma_connected_color,
    lemma_connected_refl, lemma_connected_step, lemma_distinct_cells, lemma_region_shared, region,
    spans_cols, spans_rows,
};

verus! {

/// Whether classifying the cell `seed` also classifies the cell `d`: a gray
/// cell is classified alone, any other together with its region.
pub open spec fn classified_with(b: Board, seed: Coord, d: Coord) -> bool {
    d == seed || (!grey(b.color(seed)) && connected(b, seed, d))
}

/// The kinds of the cells after the cell `seed` was classified: if it was
/// classified before, nothing changes; else it and the cells classified with it
/// get the kinds that their colors and regions give them.
pub open spec fn kinds_after(
    b: Board,
    key_size: (nat, nat),
    kinds: Seq<PixelType>,
    seed: Coord,
) -> Seq<PixelType> {
    Seq::new(
        kinds.len(),
        |i: int|
            if kinds[b.index(seed)] == PixelType::UNSET && classified_with(
                b,
                seed,
                coord_of(b.width, i),
            ) {
                cell_kind(b, key_size.0, key_size.1, coord_of(b.width, i))
            } else {
                kinds[i]
            },
    )
}

/// Classifying a cell a second time changes nothing: the first time gave it a
/// kind, and a cell that has a kind keeps it.
pub proof fn lemma_classify_twice(b: Board, key_size: (nat, nat), kinds: Seq<PixelType>, seed: Coord)
    requires
        b.valid(seed),
        kinds.len() == b.width * b.height,
        b.width <= u32::MAX,
        b.height <= u32::MAX,
    ensures
        kinds_after(b, key_size, kinds_after(b, key_size, kinds, seed), seed) == kinds_after(
            b,
            key_size,
            kinds,
            seed,
        ),
        kinds_after(b, key_size, kinds, seed)[b.index(seed)] != PixelType::UNSET,
        kinds[b.index(seed)] != PixelType::UNSET ==> kinds_after(b, key_size, kinds, seed) == kinds,
{
    let once = kinds_after(b, key_size, kinds, seed);
    let twice = kinds_after(b, key_size, once, seed);
    lemma_index_bounds(b, seed);
    lemma_coord_of(b, b.index(seed));
    lemma_index_injective(b, seed, coord_of(b.width, b.index(seed)));
    assert(once[b.index(seed)] != PixelType::UNSET);
    assert(twice =~= once);
    if kinds[b.index(seed)] != PixelType::UNSET {
        assert(once =~= kinds);
    }
}

/// The neighbors of `m` in the first `n` directions that have the color
/// `color` are all among `members`.
pub open spec fn closed_upto(b: Board, color: Color, members: Seq<Coord>, m: Coord, n: int) -> bool {
    forall|i: int|
        0 <= i < n && b.valid(#[trigger] neighbor(m, i)) && b.color(neighbor(m, i)) == color
            ==> members.contains(neighbor(m, i))
}

/// Every tagged cell either waits on the wave, or is the cell `done` whose
/// first `n` directions were looked at, or has had all its neighbors looked at;
/// and only tagged cells wait.
pub open spec fn flood_front(
    b: Board,
    color: Color,
    members: Seq<Coord>,
    wave: Seq<Coord>,
    done: Coord,
    n: int,
) -> bool {
    &&& forall|j: int| 0 <= j < wave.len() ==> members.contains(#[trigger] wave[j])
    &&& forall|j: int|
        0 <= j < members.len() ==> wave.contains(#[trigger] members[j]) || (members[j] == done
            && closed_upto(b, color, members, done, n)) || closed_upto(b, color, members, members[j], 4)
}

/// Taking the next waiting cell off the wave keeps the front.
proof fn lemma_front_pop(b: Board, color: Color, members: Seq<Coord>, wave: Seq<Coord>, done: Coord)
    requires
        flood_front(b, color, members, wave, done, 4),
        wave.len() > 0,
    ensures
        flood_front(b, color, members, wave.drop_first(), wave[0], 0),
{
    let rest = wave.drop_first();
    assert forall|j: int| 0 <= j < rest.len() implies members.contains(#[trigger] rest[j]) by {
        assert(rest[j] == wave[j + 1]);
    }
    assert forall|j: int| 0 <= j < members.len() implies rest.contains(#[trigger] members[j]) || (
    members[j] == wave[0] && closed_upto(b, color, members, wave[0], 0)) || closed_upto(
        b,
        color,
        members,
        members[j],
        4,
    ) by {
        let m = members[j];
        if wave.contains(m) {
            let t = choose|t: int| 0 <= t < wave.len() && wave[t] == m;
            if t > 0 {
                assert(rest[t - 1] == m);
            }
        }
    }
}

/// What a flood knows while it runs: the cells tagged so far, in the order in
/// which they were met, and whether the list of key candidates was dropped.
pub struct Flood {
    pub seed: Coord,
    pub kind: PixelType,
    pub members: Seq<Coord>,
    pub dropped: bool,
    pub top: Coord,
    pub bottom: Coord,
    pub left: Coord,
    pub right: Coord,
}

impl Maze {
    /// What a flood from `f.seed` has done so far: it has tagged `f.members`,
    /// which are unclassified cells of the seed's region, with `f.kind`, and it
    /// knows their bounding box and, unless it dropped them, the candidates
    /// for a key.
    pub open(crate) spec fn flood_core(
        &self,
        before: &Maze,
        f: Flood,
        candidates: Seq<usize>,
        rows: (u32, u32),
        cols: (u32, u32),
    ) -> bool {
        let b = before.board();
        let color = b.color(f.seed);
        &&& before.grid_wf()
        &&& before.kinds_wf()
        &&& self.grid_wf()
        &&& self.same_but_kinds(before)
        &&& !grey(color)
        &&& f.kind != PixelType::UNSET
        &&& f.members.len() >= 1
        &&& f.members[0] == f.seed
        &&& f.members.no_duplicates()
        &&& forall|j: int|
            0 <= j < f.members.len() ==> b.valid(#[trigger] f.members[j]) && connected(
                b,
                f.seed,
                f.members[j],
            ) && before.kind_at(f.members[j]) == PixelType::UNSET
        &&& forall|d: Coord| #[trigger]
            b.valid(d) ==> self.kind_at(d) == (if f.members.contains(d) {
                f.kind
            } else {
                before.kind_at(d)
            })
        &&& f.members.contains(f.top) && f.top.row == rows.0
        &&& f.members.contains(f.bottom) && f.bottom.row == rows.1
        &&& f.members.contains(f.left) && f.left.col == cols.0
        &&& f.members.contains(f.right) && f.right.col == cols.1
        &&& forall|j: int|
            0 <= j < f.members.len() ==> rows.0 <= (#[trigger] f.members[j]).row <= rows.1 && cols.0
                <= f.members[j].col <= cols.1
        &&& candidates.len() <= f.members.len()
        &&& forall|j: int|
            0 <= j < candidates.len() ==> (#[trigger] candidates[j]) < self.kinds().len()
        &&& !f.dropped ==> candidates.len() == f.members.len() && forall|j: int|
            0 <= j < candidates.len() ==> #[trigger] candidates[j] == b.index(f.members[j])
        &&& f.dropped ==> f.kind != PixelType::ZONE || rows.1 - rows.0 + 1 > before.key_size().0
            || cols.1 - cols.0 + 1 > before.key_size().1 || f.members.len() > before.key_size().0
            * before.key_size().1
    }

    /// The state of a flood from `f.seed` that has tagged `f.members` with
    /// `f.kind`, the cells of `wave` still waiting for their neighbors to be
    /// looked at, and of `done` the first `n` directions looked at already.
    pub open(crate) spec fn flooding(
        &self,
        before: &Maze,
        f: Flood,
        wave: Seq<Coord>,
        done: Coord,
        n: int,
        candidates: Seq<usize>,
        rows: (u32, u32),
        cols: (u32, u32),
    ) -> bool {
        &&& self.flood_core(before, f, candidates, rows, cols)
        &&& flood_front(before.board(), before.board().color(f.seed), f.members, wave, done, n)
    }

    /// Tags the cell with number `indx` with `kind`.
    pub(crate) fn set_kind(&mut self, indx: usize, kind: PixelType)
        requires
            indx < old(self).kinds().len(),
        ensures
            final(self).same_but_kinds(old(self)),
            final(self).kinds() == old(self).kinds().update(indx as int, kind),
            final(self).spec_width() == old(self).spec_width(),
            final(self).spec_height() == old(self).spec_height(),
            final(self).grid_wf() == old(self).grid_wf(),
    {
        self.pixels[indx].p_type = kind;
        proof {
            assert(self.board().colors =~= old(self).board().colors);
            assert(self.costs() =~= old(self).costs());
            assert(self.kinds() =~= old(self).kinds().update(indx as int, kind));
        }
    }
}

impl Maze {
    /// A neighbor that is off the grid, of another color, or classified
    /// already, needs no tag.
    proof fn lemma_flood_skip(
        &self,
        before: &Maze,
        f: Flood,
        wave: Seq<Coord>,
        done: Coord,
        n: int,
        candidates: Seq<usize>,
        rows: (u32, u32),
        cols: (u32, u32),
    )
        requires
            self.flooding(before, f, wave, done, n, candidates, rows, cols),
            0 <= n < 4,
            f.members.contains(done),
            !before.valid(neighbor(done, n)) || before.color_at(neighbor(done, n)) != before.color_at(
                f.seed,
            ) || self.kind_at(neighbor(done, n)) != PixelType::UNSET,
        ensures
            self.flooding(before, f, wave, done, n + 1, candidates, rows, cols),
    {
        let b = before.board();
        let color = b.color(f.seed);
        let nb = neighbor(done, n);
        if b.valid(nb) && b.color(nb) == color {
            if !f.members.contains(nb) {
                let j = choose|j: int| 0 <= j < f.members.len() && f.members[j] == done;
                assert(before.kind_at(f.members[j]) == PixelType::UNSET);
                lemma_connected_color(b, f.seed, done);
                assert(before.valid(done));
                assert(before.valid(neighbor(done, n)));
                assert(self.kind_at(nb) == before.kind_at(nb));
                assert(false);
            }
        }
        assert forall|j: int| 0 <= j < f.members.len() implies wave.contains(#[trigger] f.members[j])
            || (f.members[j] == done && closed_upto(b, color, f.members, done, n + 1)) || closed_upto(
            b,
            color,
            f.members,
            f.members[j],
            4,
        ) by {
            if f.members[j] == done && closed_upto(b, color, f.members, done, n) {
                assert(closed_upto(b, color, f.members, done, n + 1));
            }
        }
    }

    /// Tagging an unclassified neighbor of the region's color and putting it
    /// on the wave keeps the flood's state.
    proof fn lemma_flood_tag(
        &self,
        prev: &Maze,
        before: &Maze,
        f: Flood,
        g: Flood,
        wave: Seq<Coord>,
        done: Coord,
        n: int,
        candidates: Seq<usize>,
        kept: Seq<usize>,
        rows: (u32, u32),
        cols: (u32, u32),
        new_rows: (u32, u32),
        new_cols: (u32, u32),
    )
        requires
            prev.flooding(before, f, wave, done, n, candidates, rows, cols),
            0 <= n < 4,
            f.members.contains(done),
            before.valid(neighbor(done, n)),
            before.color_at(neighbor(done, n)) == before.color_at(f.seed),
            prev.kind_at(neighbor(done, n)) == PixelType::UNSET,
            self.same_but_kinds(prev),
            self.grid_wf(),
            self.kinds() == prev.kinds().update(before.board().index(neighbor(done, n)), f.kind),
            g.seed == f.seed,
            g.kind == f.kind,
            g.members == f.members.push(neighbor(done, n)),
            new_rows.0 == (if neighbor(done, n).row < rows.0 { neighbor(done, n).row } else { rows.0 }),
            new_rows.1 == (if neighbor(done, n).row > rows.1 { neighbor(done, n).row } else { rows.1 }),
            new_cols.0 == (if neighbor(done, n).col < cols.0 { neighbor(done, n).col } else { cols.0 }),
            new_cols.1 == (if neighbor(done, n).col > cols.1 { neighbor(done, n).col } else { cols.1 }),
            g.top == (if neighbor(done, n).row < rows.0 { neighbor(done, n) } else { f.top }),
            g.bottom == (if neighbor(done, n).row > rows.1 { neighbor(done, n) } else { f.bottom }),
            g.left == (if neighbor(done, n).col < cols.0 { neighbor(done, n) } else { f.left }),
            g.right == (if neighbor(done, n).col > cols.1 { neighbor(done, n) } else { f.right }),
            ({
                let fits = f.kind == PixelType::ZONE && new_rows.1 - new_rows.0 + 1
                    <= before.key_size().0 && new_cols.1 - new_cols.0 + 1 <= before.key_size().1
                    && candidates.len() < before.key_size().0 * before.key_size().1;
                if fits {
                    kept == candidates.push(before.board().index(neighbor(done, n)) as usize)
                        && g.dropped == f.dropped
                } else {
                    kept == Seq::<usize>::empty() && g.dropped
                }
            }),
        ensures
            self.flooding(before, g, wave.push(neighbor(done, n)), done, n + 1, kept, new_rows, new_cols),
    {
        let b = before.board();
        let color = b.color(f.seed);
        let nb = neighbor(done, n);
        let wave2 = wave.push(nb);
        lemma_index_bounds(b, nb);
        assert(!f.members.contains(nb));
        lemma_connected_color(b, f.seed, done);
        lemma_neighbor_adjacent(done);
        lemma_connected_step(b, f.seed, done, nb);
        assert(prev.kind_at(nb) == before.kind_at(nb));
        assert forall|j: int| 0 <= j < g.members.len() implies b.valid(#[trigger] g.members[j])
            && connected(b, f.seed, g.members[j]) && before.kind_at(g.members[j]) == PixelType::UNSET
            && new_rows.0 <= g.members[j].row <= new_rows.1 && new_cols.0 <= g.members[j].col
            <= new_cols.1 by {
            if j < f.members.len() {
                assert(g.members[j] == f.members[j]);
            }
        }
        assert forall|d: Coord| f.members.contains(d) implies g.members.contains(d) by {
            let j = choose|j: int| 0 <= j < f.members.len() && f.members[j] == d;
            assert(g.members[j] == d);
        }
        assert(g.members[f.members.len() as int] == nb);
        assert(g.members.contains(nb));
        assert forall|d: Coord| g.members.contains(d) implies f.members.contains(d) || d == nb by {
            let j = choose|j: int| 0 <= j < g.members.len() && g.members[j] == d;
            if j < f.members.len() {
                assert(f.members[j] == d);
            }
        }
        assert forall|d: Coord| #[trigger] b.valid(d) implies self.kind_at(d) == (if g.members.contains(
            d,
        ) {
            f.kind
        } else {
            before.kind_at(d)
        }) by {
            lemma_index_bounds(b, d);
            if b.index(d) == b.index(nb) {
                lemma_index_injective(b, d, nb);
            }
            assert(prev.valid(d));
        }
        assert forall|j: int| 0 <= j < wave2.len() implies g.members.contains(#[trigger] wave2[j]) by {
            if j < wave.len() {
                assert(wave2[j] == wave[j]);
                assert(f.members.contains(wave[j]));
            }
        }
        assert forall|m: Coord, t: int| closed_upto(b, color, f.members, m, t) implies closed_upto(
            b,
            color,
            g.members,
            m,
            t,
        ) by {
            assert forall|i: int|
                0 <= i < t && b.valid(#[trigger] neighbor(m, i)) && b.color(neighbor(m, i))
                    == color implies g.members.contains(neighbor(m, i)) by {
                assert(f.members.contains(neighbor(m, i)));
            }
        }
        assert forall|j: int| 0 <= j < g.members.len() implies wave2.contains(#[trigger] g.members[j])
            || (g.members[j] == done && closed_upto(b, color, g.members, done, n + 1)) || closed_upto(
            b,
            color,
            g.members,
            g.members[j],
            4,
        ) by {
            let m = g.members[j];
            if j < f.members.len() {
                assert(m == f.members[j]);
                if wave.contains(m) {
                    let t = choose|t: int| 0 <= t < wave.len() && wave[t] == m;
                    assert(wave2[t] == m);
                } else if m == done && closed_upto(b, color, f.members, done, n) {
                    assert(closed_upto(b, color, g.members, done, n));
                    assert(closed_upto(b, color, g.members, done, n + 1));
                } else {
                    assert(closed_upto(b, color, f.members, m, 4));
                }
            } else {
                assert(wave2[wave.len() as int] == m);
            }
        }
        assert forall|j: int| 0 <= j < kept.len() implies (#[trigger] kept[j]) < self.kinds().len() by {
            if j < candidates.len() {
                assert(kept[j] == candidates[j]);
            }
        }
        if !g.dropped {
            assert forall|j: int| 0 <= j < kept.len() implies #[trigger] kept[j] == b.index(
                g.members[j],
            ) by {
                if j < candidates.len() {
                    assert(kept[j] == candidates[j]);
                    assert(g.members[j] == f.members[j]);
                }
            }
        }
        assert(g.members[0] == f.members[0]);
        if f.dropped {
            if f.kind == PixelType::ZONE && !(rows.1 - rows.0 + 1 > before.key_size().0) && !(cols.1
                - cols.0 + 1 > before.key_size().1) {
                assert(g.members.len() > before.key_size().0 * before.key_size().1);
            }
        }
    }
}

impl Maze {
    /// When the wave has run dry, the tagged cells are the seed's region, and
    /// the list of candidates tells whether the region fills a box of the key
    /// size.
    proof fn lemma_flood_done(
        &self,
        before: &Maze,
        f: Flood,
        done: Coord,
        candidates: Seq<usize>,
        rows: (u32, u32),
        cols: (u32, u32),
    )
        requires
            self.flooding(before, f, Seq::<Coord>::empty(), done, 4, candidates, rows, cols),
        ensures
            region(before.board(), f.seed) == f.members.to_set(),
            (f.kind == PixelType::ZONE && rows.1 - rows.0 + 1 == before.key_size().0 && cols.1 - cols.0
                + 1 == before.key_size().1 && candidates.len() == before.key_size().0
                * before.key_size().1) <==> (f.kind == PixelType::ZONE && fills_box(
                region(before.board(), f.seed),
                before.key_size().0,
                before.key_size().1,
            )),
            f.kind == PixelType::ZONE && fills_box(
                region(before.board(), f.seed),
                before.key_size().0,
                before.key_size().1,
            ) ==> !f.dropped,
    {
        let b = before.board();
        let color = b.color(f.seed);
        let s = f.members.to_set();
        let kh = before.key_size().0;
        let kw = before.key_size().1;
        let wave = Seq::<Coord>::empty();
        assert forall|m: Coord| f.members.contains(m) implies closed_upto(b, color, f.members, m, 4) by {
            let j = choose|j: int| 0 <= j < f.members.len() && f.members[j] == m;
            assert(!wave.contains(f.members[j]));
        }
        assert forall|a: Coord, d: Coord|
            #[trigger] s.contains(a) && b.valid(d) && #[trigger] adjacent(a, d) && b.color(d) == b.color(
                a,
            ) implies s.contains(d) by {
            let j = choose|j: int| 0 <= j < f.members.len() && f.members[j] == a;
            assert(b.valid(f.members[j]));
            lemma_connected_color(b, f.seed, a);
            lemma_neighbor_adjacent(a);
            let i = choose|i: int| 0 <= i < 4 && neighbor(a, i) == d;
            assert(closed_upto(b, color, f.members, a, 4));
            assert(b.valid(neighbor(a, i)));
        }
        assert(s.contains(f.members[0]));
        lemma_closed_set_covers(b, f.seed, s);
        assert forall|d: Coord| s.contains(d) implies connected(b, f.seed, d) by {
            let j = choose|j: int| 0 <= j < f.members.len() && f.members[j] == d;
            assert(connected(b, f.seed, f.members[j]));
        }
        let r = region(b, f.seed);
        assert(r =~= s);
        f.members.unique_seq_to_set();
        vstd::seq_lib::seq_to_set_is_finite(f.members);
        assert(spans_rows(r, rows.0 as int, rows.1 as int)) by {
            assert(r.contains(f.top) && r.contains(f.bottom));
            assert forall|d: Coord| #[trigger] r.contains(d) implies rows.0 <= d.row <= rows.1 by {
                let j = choose|j: int| 0 <= j < f.members.len() && f.members[j] == d;
                assert(rows.0 <= f.members[j].row <= rows.1);
            }
        }
        assert(spans_cols(r, cols.0 as int, cols.1 as int)) by {
            assert(r.contains(f.left) && r.contains(f.right));
            assert forall|d: Coord| #[trigger] r.contains(d) implies cols.0 <= d.col <= cols.1 by {
                let j = choose|j: int| 0 <= j < f.members.len() && f.members[j] == d;
                assert(cols.0 <= f.members[j].col <= cols.1);
            }
        }
        if fills_box(r, kh, kw) {
            let top = choose|top: int| #[trigger] spans_rows(r, top, top + kh - 1);
            let left = choose|left: int| #[trigger] spans_cols(r, left, left + kw - 1);
            assert(r.contains(f.top) && r.contains(f.bottom) && r.contains(f.left) && r.contains(
                f.right,
            ));
            assert(top == rows.0 && top + kh - 1 == rows.1);
            assert(left == cols.0 && left + kw - 1 == cols.1);
        }
        if rows.1 - rows.0 + 1 == kh && cols.1 - cols.0 + 1 == kw {
            let box_board = Board { width: kw, height: kh, colors: Seq::<Color>::empty() };
            let moved = Seq::new(
                f.members.len(),
                |j: int|
                    Coord {
                        row: (f.members[j].row - rows.0) as u32,
                        col: (f.members[j].col - cols.0) as u32,
                    },
            );
            assert forall|j: int, t: int|
                0 <= j < moved.len() && 0 <= t < moved.len() && j != t implies moved[j] != moved[t] by {
                assert(f.members[j] != f.members[t]);
                assert(rows.0 <= f.members[j].row && rows.0 <= f.members[t].row);
                assert(cols.0 <= f.members[j].col && cols.0 <= f.members[t].col);
            }
            assert forall|j: int| 0 <= j < moved.len() implies box_board.valid(#[trigger] moved[j]) by {
                assert(rows.0 <= f.members[j].row <= rows.1);
                assert(cols.0 <= f.members[j].col <= cols.1);
            }
            lemma_distinct_cells(box_board, moved);
            assert(kw * kh == kh * kw) by (nonlinear_arith);
            assert(f.members.len() <= kh * kw);
            if f.kind == PixelType::ZONE {
                assert(!f.dropped);
                assert(spans_rows(r, rows.0 as int, rows.0 + kh - 1));
                assert(spans_cols(r, cols.0 as int, cols.0 + kw - 1));
            }
        }
    }

    /// After a flood, every cell of the seed's region has the region's kind,
    /// and the maze's kinds are in order again.
    proof fn lemma_flood_result(&self, before: &Maze, seed: Coord, members: Seq<Coord>)
        requires
            before.grid_wf(),
            before.kinds_wf(),
            before.valid(seed),
            before.kind_at(seed) == PixelType::UNSET,
            !grey(before.color_at(seed)),
            self.grid_wf(),
            self.same_but_kinds(before),
            region(before.board(), seed) == members.to_set(),
            forall|d: Coord| #[trigger]
                before.valid(d) ==> self.kind_at(d) == (if members.contains(d) {
                    cell_kind(before.board(), before.key_size().0, before.key_size().1, seed)
                } else {
                    before.kind_at(d)
                }),
        ensures
            self.kinds_wf(),
            forall|d: Coord| #[trigger]
                before.valid(d) ==> self.kind_at(d) == (if classified_with(before.board(), seed, d) {
                    cell_kind(before.board(), before.key_size().0, before.key_size().1, d)
                } else {
                    before.kind_at(d)
                }),
    {
        let b = before.board();
        let kh = before.key_size().0;
        let kw = before.key_size().1;
        let r = region(b, seed);
        lemma_connected_refl(b, seed);
        assert forall|d: Coord| members.contains(d) == connected(b, seed, d) by {
            assert(r.contains(d) == members.to_set().contains(d));
        }
        assert forall|d: Coord| connected(b, seed, d) implies cell_kind(b, kh, kw, d) == cell_kind(
            b,
            kh,
            kw,
            seed,
        ) && cell_kind(b, kh, kw, d) != PixelType::UNSET by {
            lemma_region_shared(b, seed, d);
        }
        assert forall|d: Coord| #[trigger] before.valid(d) implies self.kind_at(d) == (
        if classified_with(b, seed, d) {
            cell_kind(b, kh, kw, d)
        } else {
            before.kind_at(d)
        }) by {
            if d == seed {
                assert(connected(b, seed, d));
            }
        }
        assert forall|d: Coord| #[trigger] self.valid(d) implies self.kind_at(d) == PixelType::UNSET
            || self.kind_at(d) == cell_kind(self.board(), self.key_size().0, self.key_size().1, d) by {
            assert(before.valid(d));
        }
        assert forall|d: Coord, i: int|
            self.valid(d) && 0 <= i < 4 && self.valid(#[trigger] neighbor(d, i)) && self.color_at(
                neighbor(d, i),
            ) == self.color_at(d) && !grey(self.color_at(d)) implies (self.kind_at(d)
            == PixelType::UNSET <==> self.kind_at(neighbor(d, i)) == PixelType::UNSET) by {
            let n = neighbor(d, i);
            assert(before.valid(d) && before.valid(n));
            lemma_neighbor_adjacent(d);
            assert(adjacent(d, n));
            assert(adjacent(n, d));
            if connected(b, seed, d) {
                lemma_connected_step(b, seed, d, n);
            }
            if connected(b, seed, n) {
                lemma_connected_step(b, seed, n, d);
            }
            assert(before.kind_at(d) == PixelType::UNSET <==> before.kind_at(n) == PixelType::UNSET);
        }
    }

    /// Classifies the cell at `c` if it is unclassified yet: a black cell
    /// becomes a wall and any other gray cell free; a cell of another color is
    /// classified together with its whole region, as start, end, key or zone.
    /// A classified cell keeps its kind.
    pub fn set_area_at(&mut self, c: &Coord)
        requires
            old(self).grid_wf(),
            old(self).kinds_wf(),
            old(self).valid(*c),
        ensures
            final(self).grid_wf(),
            final(self).kinds_wf(),
            final(self).same_but_kinds(old(self)),
            old(self).wf() ==> final(self).wf(),
            final(self).kinds() == kinds_after(
                old(self).board(),
                old(self).key_size(),
                old(self).kinds(),
                *c,
            ),
            forall|d: Coord| #[trigger]
                old(self).valid(d) ==> final(self).kind_at(d) == (if old(self).kind_at(*c)
                    == PixelType::UNSET && classified_with(old(self).board(), *c, d) {
                    cell_kind(old(self).board(), old(self).key_size().0, old(self).key_size().1, d)
                } else {
                    old(self).kind_at(d)
                }),
    {
        self.classify(c);
        proof {
            let b = old(self).board();
            let after = kinds_after(b, old(self).key_size(), old(self).kinds(), *c);
            assert forall|i: int| 0 <= i < after.len() implies self.kinds()[i] == after[i] by {
                lemma_coord_of(b, i);
                assert(old(self).valid(coord_of(b.width, i)));
            }
            assert(self.kinds() =~= after);
            if old(self).wf() {
                old(self).lemma_classified_keeps_wf(self);
            }
        }
    }

    /// Does the work of `set_area_at`: gives a gray cell its kind at once, and
    /// floods the region of any other cell from `c`, cell by cell and
    /// neighbor by neighbor. While it floods it keeps the region's bounding
    /// box and, as long as the region fits a key, the list of its cells; a
    /// region that turns out to fill a box of the key size is tagged as a key
    /// in the end.
    fn classify(&mut self, c: &Coord)
        requires
            old(self).grid_wf(),
            old(self).kinds_wf(),
            old(self).valid(*c),
        ensures
            final(self).grid_wf(),
            final(self).kinds_wf(),
            final(self).same_but_kinds(old(self)),
            forall|d: Coord| #[trigger]
                old(self).valid(d) ==> final(self).kind_at(d) == (if old(self).kind_at(*c)
                    == PixelType::UNSET && classified_with(old(self).board(), *c, d) {
                    cell_kind(old(self).board(), old(self).key_size().0, old(self).key_size().1, d)
                } else {
                    old(self).kind_at(d)
                }),
    {
        let ghost b = self.board();
        let ghost kh = self.key_size().0;
        let ghost kw = self.key_size().1;
        proof {
            lemma_index_bounds(b, *c);
        }
        let indx = c.row as usize * self.width as usize + c.col as usize;
        if self.pixels[indx].p_type != PixelType::UNSET {
            return ;
        }
        let color = self.pixels[indx].color;
        if color == Color::wall() || is_grey(&color) {
            let kind = if color == Color::wall() {
                PixelType::WALL
            } else {
                PixelType::FREE
            };
            self.set_kind(indx, kind);
            proof {
                assert forall|d: Coord| #[trigger] old(self).valid(d) implies self.kind_at(d) == (
                if d == *c {
                    kind
                } else {
                    old(self).kind_at(d)
                }) by {
                    lemma_index_bounds(b, d);
                    if b.index(d) == b.index(*c) {
                        lemma_index_injective(b, d, *c);
                    }
                }
                assert forall|d: Coord, i: int|
                    self.valid(d) && 0 <= i < 4 && self.valid(#[trigger] neighbor(d, i))
                        && self.color_at(neighbor(d, i)) == self.color_at(d) && !grey(
                        self.color_at(d),
                    ) implies (self.kind_at(d) == PixelType::UNSET <==> self.kind_at(neighbor(d, i))
                    == PixelType::UNSET) by {
                    assert(old(self).valid(d) && old(self).valid(neighbor(d, i)));
                }
                assert forall|d: Coord| #[trigger] self.valid(d) implies self.kind_at(d)
                    == PixelType::UNSET || self.kind_at(d) == cell_kind(
                    self.board(),
                    self.key_size().0,
                    self.key_size().1,
                    d,
                ) by {
                    assert(old(self).valid(d));
                }
            }
            return ;
        }
        let mut p_type = PixelType::ZONE;
        if color == Color::start() {
            p_type = PixelType::START;
        }
        if color == Color::end() {
            p_type = PixelType::END;
        }
        self.set_kind(indx, p_type);
        assert(self.key_height * self.key_width <= 0xFFFF_FFFF * 0xFFFF_FFFF) by (nonlinear_arith)
            requires
                self.key_height <= 0xFFFF_FFFF,
                self.key_width <= 0xFFFF_FFFF,
        ;
        let area: u64 = self.key_height as u64 * self.key_width as u64;
        let mut key_pixels: Vec<usize> = Vec::new();
        let mut max_height: u32 = c.row;
        let mut min_height: u32 = c.row;
        let mut max_width: u32 = c.col;
        let mut min_width: u32 = c.col;
        let mut wave: VecDeque<Coord> = VecDeque::new();
        wave.push_back(*c);
        key_pixels.push(indx);
        let ghost mut f = Flood {
            seed: *c,
            kind: p_type,
            members: seq![*c],
            dropped: false,
            top: *c,
            bottom: *c,
            left: *c,
            right: *c,
        };
        let ghost mut done = *c;
        proof {
            lemma_connected_refl(b, *c);
            assert(f.members[0] == *c);
            assert(f.members.contains(*c));
            assert forall|d: Coord| #[trigger] b.valid(d) implies self.kind_at(d) == (
            if f.members.contains(d) {
                f.kind
            } else {
                old(self).kind_at(d)
            }) by {
                lemma_index_bounds(b, d);
                if b.index(d) == b.index(*c) {
                    lemma_index_injective(b, d, *c);
                }
                if f.members.contains(d) {
                    let j = choose|j: int| 0 <= j < f.members.len() && f.members[j] == d;
                }
            }
            assert(wave@[0] == *c);
            assert(wave@.contains(f.members[0]));
            assert(self.flooding(
                old(self),
                f,
                wave@,
                done,
                4,
                key_pixels@,
                (min_height, max_height),
                (min_width, max_width),
            ));
        }
        while wave.len() > 0
            invariant
                self.flooding(
                    old(self),
                    f,
                    wave@,
                    done,
                    4,
                    key_pixels@,
                    (min_height, max_height),
                    (min_width, max_width),
                ),
                f.seed == *c,
                f.kind == p_type,
                b == old(self).board(),
                color == b.color(*c),
                area == old(self).key_size().0 * old(self).key_size().1,
            decreases 5 * (b.width * b.height - f.members.len()) + wave@.len(),
        {
            let ghost wave0 = wave@;
            let ghost count0 = f.members.len();
            let curr: Coord = wave.pop_front().unwrap();
            proof {
                lemma_front_pop(b, color, f.members, wave0, done);
                done = curr;
                assert(wave@ =~= wave0.drop_first());
                assert(f.members.contains(wave0[0]));
            }
            let mut i: usize = 0;
            while i < 4
                invariant
                    i <= 4,
                    self.flooding(
                        old(self),
                        f,
                        wave@,
                        done,
                        i as int,
                        key_pixels@,
                        (min_height, max_height),
                        (min_width, max_width),
                    ),
                    f.seed == *c,
                    f.kind == p_type,
                    done == curr,
                    f.members.contains(done),
                    b == old(self).board(),
                    color == b.color(*c),
                    area == old(self).key_size().0 * old(self).key_size().1,
                    wave@.len() + count0 == wave0.len() - 1 + f.members.len(),
                    count0 <= f.members.len() <= count0 + i,
                decreases 4 - i,
            {
                let nb: Coord = curr + direction(i);
                let ghost prev = *self;
                let tag = match self.pixel_indx(&nb) {
                    Ok(nb_indx) => {
                        if self.pixels[nb_indx].color == color && self.pixels[nb_indx].p_type
                            == PixelType::UNSET {
                            Some(nb_indx)
                        } else {
                            None
                        }
                    },
                    Err(_) => None,
                };
                match tag {
                    Some(nb_indx) => {
                        let ghost f0 = f;
                        let ghost old_candidates = key_pixels@;
                        let ghost rows0 = (min_height, max_height);
                        let ghost cols0 = (min_width, max_width);
                        let ghost waiting = wave@;
                        self.set_kind(nb_indx, p_type);
                        wave.push_back(nb);
                        proof {
                            f = Flood {
                                seed: f0.seed,
                                kind: f0.kind,
                                members: f0.members.push(nb),
                                dropped: f0.dropped,
                                top: if nb.row < min_height { nb } else { f0.top },
                                bottom: if nb.row > max_height { nb } else { f0.bottom },
                                left: if nb.col < min_width { nb } else { f0.left },
                                right: if nb.col > max_width { nb } else { f0.right },
                            };
                        }
                        if max_height < nb.row {
                            max_height = nb.row;
                        }
                        if min_height > nb.row {
                            min_height = nb.row;
                        }
                        if max_width < nb.col {
                            max_width = nb.col;
                        }
                        if min_width > nb.col {
                            min_width = nb.col;
                        }
                        if p_type == PixelType::ZONE && max_height - min_height + 1 <= self.key_height
                            && max_width - min_width + 1 <= self.key_width && (key_pixels.len() as u64)
                            < area {
                            key_pixels.push(nb_indx);
                        } else {
                            if key_pixels.len() > 0 {
                                key_pixels.clear();
                            }
                            proof {
                                f = Flood {
                                    seed: f.seed,
                                    kind: f.kind,
                                    members: f.members,
                                    dropped: true,
                                    top: f.top,
                                    bottom: f.bottom,
                                    left: f.left,
                                    right: f.right,
                                };
                                assert(key_pixels@ =~= Seq::<usize>::empty());
                            }
                        }
                        proof {
                            self.lemma_flood_tag(
                                &prev,
                                old(self),
                                f0,
                                f,
                                waiting,
                                done,
                                i as int,
                                old_candidates,
                                key_pixels@,
                                rows0,
                                cols0,
                                (min_height, max_height),
                                (min_width, max_width),
                            );
                            assert(f.members.contains(done)) by {
                                let j = choose|j: int| 0 <= j < f0.members.len() && f0.members[j] == done;
                                assert(f.members[j] == done);
                            }
                        }
                    },
                    None => {
                        proof {
                            self.lemma_flood_skip(
                                old(self),
                                f,
                                wave@,
                                done,
                                i as int,
                                key_pixels@,
                                (min_height, max_height),
                                (min_width, max_width),
                            );
                        }
                    },
                }
                i = i + 1;
            }
            proof {
                lemma_distinct_cells(b, f.members);
            }
        }
        let ghost mid = *self;
        proof {
            assert(wave@ =~= Seq::<Coord>::empty());
            self.lemma_flood_done(
                old(self),
                f,
                done,
                key_pixels@,
                (min_height, max_height),
                (min_width, max_width),
            );
        }
        let is_key = p_type == PixelType::ZONE && max_height - min_height + 1 == self.key_height
            && max_width - min_width + 1 == self.key_width && key_pixels.len() as u64 == area;
        if is_key {
            let mut j: usize = 0;
            while j < key_pixels.len()
                invariant
                    j <= key_pixels@.len(),
                    self.grid_wf(),
                    self.same_but_kinds(&mid),
                    self.kinds().len() == mid.kinds().len(),
                    forall|t: int|
                        0 <= t < key_pixels@.len() ==> (#[trigger] key_pixels@[t]) < mid.kinds().len(),
                    forall|x: int|
                        0 <= x < mid.kinds().len() ==> (#[trigger] self.kinds()[x]) == (if exists|t: int|
                            0 <= t < j && key_pixels@[t] == x {
                            PixelType::KEY
                        } else {
                            mid.kinds()[x]
                        }),
                decreases key_pixels@.len() - j,
            {
                let ghost kinds0 = self.kinds();
                self.set_kind(key_pixels[j], PixelType::KEY);
                proof {
                    assert forall|x: int| 0 <= x < mid.kinds().len() implies (#[trigger] self.kinds()[x])
                        == (if exists|t: int| 0 <= t < j + 1 && key_pixels@[t] == x {
                        PixelType::KEY
                    } else {
                        mid.kinds()[x]
                    }) by {
                        if x == key_pixels@[j as int] {
                        } else {
                            assert(self.kinds()[x] == kinds0[x]);
                            if exists|t: int| 0 <= t < j + 1 && key_pixels@[t] == x {
                                let t = choose|t: int| 0 <= t < j + 1 && key_pixels@[t] == x;
                                assert(0 <= t < j && key_pixels@[t] == x);
                            }
                        }
                    }
                }
                j = j + 1;
            }
        }
        proof {
            let cands = key_pixels@;
            assert forall|d: Coord| #[trigger] old(self).valid(d) implies self.kind_at(d) == (
            if f.members.contains(d) {
                cell_kind(b, kh, kw, *c)
            } else {
                old(self).kind_at(d)
            }) by {
                lemma_index_bounds(b, d);
                assert(mid.valid(d));
                if is_key {
                    assert(!f.dropped);
                    if f.members.contains(d) {
                        let t = choose|t: int| 0 <= t < f.members.len() && f.members[t] == d;
                        assert(cands[t] == b.index(d));
                    } else {
                        if exists|t: int| 0 <= t < cands.len() && cands[t] == b.index(d) {
                            let t = choose|t: int| 0 <= t < cands.len() && cands[t] == b.index(d);
                            assert(cands[t] == b.index(f.members[t]));
                            lemma_index_injective(b, d, f.members[t]);
                        }
                    }
                }
            }
            self.lemma_flood_result(old(self), *c, f.members);
        }
    }
}

} // verus!
