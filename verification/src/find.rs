use vstd::prelude::*;
use std::collections::VecDeque;
use crate::board::{first_start, has_start, lemma_index_bounds, lemma_index_injective, Board};
use crate::cell::PixelType;
use crate::classify::{classified_with, kinds_after};
use crate::color::{end_color, start_color, Color};
use crate::coord::{adjacent, neighbor, Coord};
use crate::error::{MazeError, MazeErrorKind, MazeResult};
use crate::keycomb::zeros;
use crate::maze::{Maze, MAX_DIST};
use crate::potential::lemma_potential_bounds;
use crate::region::{cell_kind, connected};
use crate::walk::{is_walk, lemma_walk_longer, reachable, reachable_below, walk_cost, Walker};

verus! {

/// A grid without a cell of the start color has no walk.
pub proof fn lemma_no_start_no_walk(b: Board, key_size: (nat, nat))
    requires
        !has_start(b),
    ensures
        forall|e: Coord, bound: int| !#[trigger] reachable_below(b, key_size, e, bound),
{
    assert forall|e: Coord, bound: int| !#[trigger] reachable_below(b, key_size, e, bound) by {
        if reachable_below(b, key_size, e, bound) {
            let w = choose|w: Seq<Walker>|
                #[trigger] is_walk(b, key_size, w) && w.last().at == e && walk_cost(b, w) < bound;
            assert(first_start(b, w[0].at));
            assert(b.valid(w[0].at) && b.color(w[0].at) == start_color());
        }
    }
}

impl Maze {
    /// The first cell of the start color, read row by row, after classifying
    /// its region; `NoStart` if the grid has no such cell.
    pub fn get_start(&mut self) -> (r: MazeResult<Coord>)
        requires
            old(self).wf(),
        ensures
            final(self).wf(),
            old(self).advances_to(final(self)),
            final(self).same_but_kinds(old(self)),
            r matches Ok(s) ==> first_start(old(self).board(), s) && final(self).kind_at(s)
                == PixelType::START && final(self).kinds() == kinds_after(
                old(self).board(),
                old(self).key_size(),
                old(self).kinds(),
                s,
            ),
            r matches Err(e) ==> !has_start(old(self).board()) && e.kind == MazeErrorKind::NoStart
                && e.details@ == "There is no start."@ && final(self).kinds() == old(self).kinds(),
            forall|d: Coord| #[trigger]
                old(self).valid(d) ==> final(self).kind_at(d) == old(self).kind_at(d)
                    || final(self).kind_at(d) == PixelType::START,
            r matches Ok(s) ==> forall|d: Coord| #[trigger]
                old(self).valid(d) ==> final(self).kind_at(d) == old(self).kind_at(d)
                    || classified_with(old(self).board(), s, d),
    {
        let ghost b = self.board();
        proof {
            self.lemma_wf_parts();
        }
        let mut row: u32 = 0;
        while row < self.height
            invariant
                *self == *old(self),
                b == self.board(),
                self.wf(),
                self.grid_wf(),
                row <= self.height,
                forall|c: Coord| b.valid(c) && c.row < row ==> #[trigger] b.color(c) != start_color(),
            decreases self.height - row,
        {
            let mut col: u32 = 0;
            while col < self.width
                invariant
                    *self == *old(self),
                    b == self.board(),
                    self.wf(),
                    self.grid_wf(),
                    row < self.height,
                    col <= self.width,
                    forall|c: Coord|
                        b.valid(c) && (c.row < row || (c.row == row && c.col < col)) ==> #[trigger] b.color(
                            c,
                        ) != start_color(),
                decreases self.width - col,
            {
                let curr = Coord::new(row, col);
                proof {
                    lemma_index_bounds(b, curr);
                }
                let indx = row as usize * self.width as usize + col as usize;
                if self.pixels[indx].color == Color::start() {
                    self.visit(&curr);
                    proof {
                        self.lemma_wf_parts();
                        assert(self.valid(curr));
                        assert(self.kind_at(curr) == cell_kind(
                            self.board(),
                            self.key_size().0,
                            self.key_size().1,
                            curr,
                        ));
                    }
                    return Ok(curr);
                }
                col = col + 1;
            }
            row = row + 1;
        }
        proof {
            self.lemma_advances_refl();
        }
        Err(MazeError::new(MazeErrorKind::NoStart, "There is no start.".to_owned()))
    }
}

impl Maze {
    /// Whether every classified cell was classified with the first cell of
    /// the start color or with a cell that the search has stood next to.
    pub open(crate) spec fn kinds_traced(&self) -> bool {
        exists|s: Coord| #[trigger] first_start(self.board(), s) && self.kinds_known(s)
    }

    /// Taking the next waiting state off the wave keeps the front.
    proof fn lemma_search_pop(&self, wave: Seq<(Coord, usize)>, done: (Coord, usize))
        requires
            self.search_front(wave, done, 4),
            wave.len() > 0,
        ensures
            self.search_front(wave.drop_first(), wave[0], 0),
            self.has_cost(wave[0].0, wave[0].1),
    {
        reveal(Maze::search_front);
        let rest = wave.drop_first();
        assert forall|j: int| 0 <= j < rest.len() implies self.has_cost((#[trigger] rest[j]).0, rest[j].1) by {
            assert(rest[j] == wave[j + 1]);
        }
        assert forall|c: Coord, k: usize| #[trigger] self.has_cost(c, k) implies rest.contains((c, k))
            || ((c, k) == wave[0] && self.relaxed_upto(c, k, 0)) || self.relaxed_upto(c, k, 4) by {
            if wave.contains((c, k)) {
                let t = choose|t: int| 0 <= t < wave.len() && wave[t] == (c, k);
                if t > 0 {
                    assert(rest[t - 1] == (c, k));
                }
            }
        }
    }

    /// When nothing waits any more, the search is settled.
    proof fn lemma_search_done(&self, done: (Coord, usize))
        requires
            self.search_front(Seq::<(Coord, usize)>::empty(), done, 4),
        ensures
            self.settled(),
    {
        reveal(Maze::search_front);
        reveal(Maze::settled);
        let wave = Seq::<(Coord, usize)>::empty();
        assert forall|c: Coord, k: usize| #[trigger] self.has_cost(c, k) implies self.relaxed_upto(c, k, 4) by {
            assert(!wave.contains((c, k)));
        }
    }

    /// What is known of the classified cells does not depend on the end state
    /// chosen.
    proof fn lemma_kinds_known_same(&self, next: &Maze, start: Coord)
        requires
            next.same_but_end(self),
            self.kinds_known(start),
        ensures
            next.kinds_known(start),
    {
        reveal(Maze::kinds_known);
        let b = self.board();
        assert forall|c: Coord, k: usize| next.has_cost(c, k) == self.has_cost(c, k) by {}
        assert forall|d: Coord| #[trigger]
            next.valid(d) && next.kind_at(d) != PixelType::UNSET implies classified_with(b, start, d)
            || exists|x: Coord| next.valid(x) && next.met(x) && #[trigger] classified_with(b, x, d) by {
            assert(self.valid(d));
            if !classified_with(b, start, d) {
                let x = choose|x: Coord| self.valid(x) && self.met(x) && #[trigger] classified_with(b, x, d);
                let (c, k, i) = choose|c: Coord, k: usize, i: int|
                    #[trigger] self.has_cost(c, k) && 0 <= i < 4 && #[trigger] neighbor(c, i) == x;
                assert(next.has_cost(c, k));
                assert(next.valid(x) && next.met(x) && classified_with(b, x, d));
            }
        }
    }

    /// What is known of the registered colors does not depend on the end state
    /// chosen.
    proof fn lemma_keys_known_same(&self, next: &Maze)
        requires
            next.same_but_end(self),
            self.keys_known(),
        ensures
            next.keys_known(),
    {
        reveal(Maze::keys_known);
        assert forall|c: Coord, k: usize| next.has_cost(c, k) == self.has_cost(c, k) by {}
        assert forall|q: int| 0 <= q < next.registry().len() implies next.key_met(
            #[trigger] next.registry()[q],
        ) by {
            assert(self.key_met(self.registry()[q]));
            let n = choose|n: Coord|
                self.valid(n) && self.kind_at(n) == PixelType::KEY && #[trigger] self.color_at(n)
                    == self.registry()[q] && self.met(n);
            let (c, k, i) = choose|c: Coord, k: usize, i: int|
                #[trigger] self.has_cost(c, k) && 0 <= i < 4 && #[trigger] neighbor(c, i) == n;
            assert(next.has_cost(c, k));
            assert(next.valid(n) && next.kind_at(n) == PixelType::KEY && next.color_at(n)
                == next.registry()[q] && next.met(n));
        }
    }

    /// What the search has found out does not depend on the end state chosen.
    proof fn lemma_chosen_keeps(&self, next: &Maze, ends: Seq<Coord>)
        requires
            next.same_but_end(self),
            self.settled(),
            self.ends_known(ends),
        ensures
            next.settled(),
            next.ends_known(ends),
            forall|start: Coord| self.kinds_known(start) ==> next.kinds_known(start),
            self.keys_known() ==> next.keys_known(),
    {
        if self.keys_known() {
            self.lemma_keys_known_same(next);
        }
        assert forall|start: Coord| self.kinds_known(start) implies next.kinds_known(start) by {
            self.lemma_kinds_known_same(next, start);
        }
        reveal(Maze::ends_known);
        reveal(Maze::settled);
        assert forall|c: Coord, k: usize| next.has_cost(c, k) == self.has_cost(c, k) by {}
        assert forall|c: Coord, k: usize| #[trigger] next.has_cost(c, k) implies next.relaxed_upto(c, k, 4) by {
            assert(self.has_cost(c, k));
            assert forall|i: int| 0 <= i < 4 implies #[trigger] next.edge_relaxed(c, k, i) by {
                assert(self.edge_relaxed(c, k, i));
                let n = neighbor(c, i);
                if next.valid(n) {
                    assert forall|k2: usize| next.carries(k, n, k2) == self.carries(k, n, k2) by {}
                    if self.kind_at(n) == PixelType::KEY {
                        let k2 = choose|k2: usize| k2 < self.pool().len() && #[trigger] self.carries(k, n, k2);
                        assert(next.carries(k, n, k2));
                    }
                }
            }
        }
        assert forall|j: int| 0 <= j < ends.len() implies next.valid(#[trigger] ends[j])
            && next.kind_at(ends[j]) == PixelType::END && next.met(ends[j]) by {
            let e = ends[j];
            assert(self.valid(e) && self.met(e));
            let (c, k, i) = choose|c: Coord, k: usize, i: int|
                #[trigger] self.has_cost(c, k) && 0 <= i < 4 && #[trigger] neighbor(c, i) == e;
            assert(next.has_cost(c, k));
        }
        assert forall|d: Coord| #[trigger] next.valid(d) && next.kind_at(d) == PixelType::END implies exists|
            j: int,
        | 0 <= j < ends.len() && connected(next.board(), #[trigger] ends[j], d) by {
            assert(self.valid(d));
        }
    }

    /// Starts a search at the start cell: records that it is reached without
    /// keys at no cost.
    fn seed(&mut self, start: &Coord)
        requires
            old(self).wf(),
            first_start(old(self).board(), *start),
            old(self).kind_at(*start) == PixelType::START,
            old(self).end_state() is None,
            forall|i: int|
                0 <= i < old(self).costs().len() ==> #[trigger] old(self).costs()[i] == Map::<
                    usize,
                    u32,
                >::empty(),
            forall|d: Coord| #[trigger] old(self).valid(d) ==> old(self).kind_at(d) != PixelType::END,
            old(self).registry().len() == 0,
            forall|d: Coord| #[trigger]
                old(self).valid(d) && old(self).kind_at(d) != PixelType::UNSET ==> classified_with(
                    old(self).board(),
                    *start,
                    d,
                ),
        ensures
            final(self).searching(
                *start,
                seq![(*start, 0usize)],
                (*start, 0usize),
                4,
                Seq::<Coord>::empty(),
            ),
            final(self).same_but_costs(old(self)),
    {
        proof {
            self.lemma_wf_parts();
            lemma_index_bounds(self.board(), *start);
        }
        let indx = start.row as usize * self.width as usize + start.col as usize;
        self.set_cost(indx, 0, 0);
        proof {
            let b = self.board();
            let wave = seq![(*start, 0usize)];
            assert forall|c: Coord, k: usize| #[trigger] self.has_cost(c, k) implies c == *start && k
                == 0 by {
                lemma_index_bounds(b, c);
                if b.index(c) == b.index(*start) {
                    lemma_index_injective(b, c, *start);
                } else {
                    assert(self.costs()[b.index(c)] == old(self).costs()[b.index(c)]);
                }
            }
            assert(self.has_cost(*start, 0) && self.cost(*start, 0) == 0);
            old(self).lemma_kinds_wf_same(self);
            assert(self.costs_wf());
            assert(self.end_wf());
            self.lemma_wf_parts();
            assert(self.search_front(wave, (*start, 0usize), 4)) by {
                reveal(Maze::search_front);
                assert(wave[0] == (*start, 0usize));
                assert forall|c: Coord, k: usize| #[trigger] self.has_cost(c, k) implies wave.contains(
                    (c, k),
                ) by {}
            }
            assert(self.keys_known()) by {
                reveal(Maze::keys_known);
            }
            assert(self.kinds_known(*start)) by {
                reveal(Maze::kinds_known);
                assert forall|d: Coord| #[trigger]
                    self.valid(d) && self.kind_at(d) != PixelType::UNSET implies classified_with(
                    self.board(),
                    *start,
                    d,
                ) by {
                    assert(old(self).valid(d));
                }
            }
            assert(self.ends_known(Seq::<Coord>::empty())) by {
                reveal(Maze::ends_known);
                assert forall|d: Coord| #[trigger] self.valid(d) implies self.kind_at(d)
                    != PixelType::END by {
                    assert(old(self).valid(d));
                }
            }
        }
    }

    /// Sets the key size, looks for the start cell and records the origin
    /// there; `NoStart` if the grid has no cell of the start color.
    fn start_search(&mut self, key_height: u32, key_width: u32) -> (r: MazeResult<Coord>)
        requires
            old(self).wf(),
            old(self).fresh(),
        ensures
            final(self).board() == old(self).board(),
            final(self).key_size() == (key_height as nat, key_width as nat),
            r matches Err(e) ==> e.kind == MazeErrorKind::NoStart && e.details@
                == "There is no start."@ && !has_start(old(self).board()) && final(self).fresh()
                && final(self).wf(),
            r matches Ok(s) ==> first_start(old(self).board(), s) && final(self).searching(
                s,
                seq![(s, 0usize)],
                (s, 0usize),
                4,
                Seq::<Coord>::empty(),
            ),
    {
        let ghost b = self.board();
        proof {
            self.lemma_wf_parts();
        }
        self.key_height = key_height;
        self.key_width = key_width;
        proof {
            assert(self.board().colors =~= b.colors);
            assert(self.pool() =~= old(self).pool());
            assert(self.grid_wf());
            self.lemma_fresh_wf();
        }
        let ghost blank = *self;
        let start = match self.get_start() {
            Ok(start) => start,
            Err(e) => {
                proof {
                    assert(self.costs() == blank.costs());
                    assert(self.fresh()) by {
                        assert forall|i: int| 0 <= i < self.pixels@.len() implies (
                        #[trigger] self.pixels@[i]).p_type == PixelType::UNSET && self.pixels@[i].key_dists@
                            == Map::<usize, u32>::empty() by {
                            assert(self.kinds()[i] == blank.kinds()[i]);
                            assert(self.costs()[i] == blank.costs()[i]);
                        }
                    }
                }
                return Err(e);
            },
        };
        proof {
            assert forall|i: int| 0 <= i < self.costs().len() implies #[trigger] self.costs()[i]
                == Map::<usize, u32>::empty() by {
                assert(self.costs()[i] == blank.costs()[i]);
            }
            assert forall|d: Coord| #[trigger] self.valid(d) implies self.kind_at(d)
                != PixelType::END && (self.kind_at(d) != PixelType::UNSET ==> classified_with(
                b,
                start,
                d,
            )) by {
                assert(blank.valid(d));
                lemma_index_bounds(b, d);
                assert(blank.kind_at(d) == PixelType::UNSET);
            }
        }
        self.seed(&start);
        Ok(start)
    }

    /// What a finished search and the choice of the end state add up to.
    proof fn lemma_search_result(
        &self,
        next: &Maze,
        start: Coord,
        done: (Coord, usize),
        ends: Seq<Coord>,
        found: bool,
    )
        requires
            self.searching(start, Seq::<(Coord, usize)>::empty(), done, 4, ends),
            first_start(self.board(), start),
            next.same_but_end(self),
            next.end_chosen_from(ends),
            next.end_state() == self.chosen(ends, ends.len() as int).0,
            found == (ends.len() > 0),
        ensures
            next.settled(),
            next.ends_known(ends),
            next.kinds_known(start),
            next.keys_known(),
            next.end_state() == next.chosen(ends, ends.len() as int).0,
            next.valid(start),
            next.kind_at(start) == PixelType::START,
            next.has_cost(start, 0),
            next.cost(start, 0) == 0,
            next.wf() ==> forall|e: Coord|
                next.board().color(e) == end_color() && #[trigger] reachable_below(
                    next.board(),
                    next.key_size(),
                    e,
                    MAX_DIST - next.spec_width() * next.spec_height(),
                ) ==> next.end_state() is Some,
            found <==> exists|d: Coord| next.valid(d) && #[trigger] next.kind_at(d) == PixelType::END,
            found ==> exists|e: Coord|
                next.board().color(e) == end_color() && #[trigger] reachable(
                    next.board(),
                    next.key_size(),
                    e,
                ),
    {
        self.lemma_search_done(done);
        self.lemma_chosen_keeps(next, ends);
        self.lemma_chosen_same(next, ends, ends.len() as int);
        next.lemma_found_end(ends);
        assert(next.has_cost(start, 0) == self.has_cost(start, 0));
        if found {
            self.lemma_found_is_reachable(ends);
        }
        if next.wf() {
            assert(first_start(next.board(), start));
            assert(next.has_origin());
            assert forall|e: Coord|
                next.board().color(e) == end_color() && #[trigger] reachable_below(
                    next.board(),
                    next.key_size(),
                    e,
                    MAX_DIST - next.spec_width() * next.spec_height(),
                ) implies next.end_state() is Some by {
                next.lemma_end_is_chosen(ends, e);
            }
        }
    }

    /// An end cell that the search has stood next to can be walked to.
    proof fn lemma_met_is_reachable(&self, e: Coord)
        requires
            self.wf(),
            self.valid(e),
            self.kind_at(e) == PixelType::END,
            self.met(e),
        ensures
            self.color_at(e) == end_color(),
            reachable(self.board(), self.key_size(), e),
    {
        let b = self.board();
        let (c, k, i) = choose|c: Coord, k: usize, i: int|
            #[trigger] self.has_cost(c, k) && 0 <= i < 4 && #[trigger] neighbor(c, i) == e;
        let v = self.lemma_cost_has_walk(c, k);
        self.lemma_wf_parts();
        assert(self.kind_at(e) == cell_kind(b, self.key_size().0, self.key_size().1, e));
        assert(self.valid(c));
        crate::coord::lemma_neighbor_adjacent(c);
        let t = Walker { at: e, keys: self.held(k) };
        lemma_walk_longer(b, self.key_size(), v, t);
        assert(v.push(t).last() == t);
    }

    /// If the search has found an end region, some cell of the end color can
    /// be walked to.
    proof fn lemma_found_is_reachable(&self, ends: Seq<Coord>)
        requires
            self.wf(),
            self.ends_known(ends),
            ends.len() > 0,
        ensures
            exists|e: Coord|
                self.board().color(e) == end_color() && #[trigger] reachable(
                    self.board(),
                    self.key_size(),
                    e,
                ),
    {
        let e = ends[0];
        assert(self.valid(e) && self.kind_at(e) == PixelType::END && self.met(e)) by {
            reveal(Maze::ends_known);
        }
        self.lemma_met_is_reachable(e);
    }

    /// After a search, a cell of the end color that a walk costing less than
    /// `MAX_DIST` ends on is classified as an end cell.
    proof fn lemma_reachable_is_found(&self, e: Coord)
        requires
            self.wf(),
            self.settled(),
            self.has_origin(),
            self.board().color(e) == end_color(),
            reachable_below(self.board(), self.key_size(), e, MAX_DIST as int),
        ensures
            self.valid(e),
            self.kind_at(e) == PixelType::END,
    {
        let b = self.board();
        let w = choose|w: Seq<Walker>|
            #[trigger] is_walk(b, self.key_size(), w) && w.last().at == e && walk_cost(b, w) < MAX_DIST as int;
        let k = self.lemma_walk_has_cost(w);
        self.lemma_cost_facts(e, k);
        self.lemma_wf_parts();
        assert(self.valid(e));
        assert(self.kind_at(e) == cell_kind(b, self.key_size().0, self.key_size().1, e));
    }

    /// After a search, if a walk to a cell of the end color leaves enough of
    /// the range of costs to walk on through the cell's region, an end state
    /// was chosen.
    proof fn lemma_end_is_chosen(&self, ends: Seq<Coord>, e: Coord)
        requires
            self.wf(),
            self.settled(),
            self.has_origin(),
            self.ends_known(ends),
            self.end_chosen_from(ends),
            self.board().color(e) == end_color(),
            reachable_below(
                self.board(),
                self.key_size(),
                e,
                MAX_DIST - self.spec_width() * self.spec_height(),
            ),
        ensures
            self.end_state() is Some,
    {
        let b = self.board();
        let bound = MAX_DIST - self.spec_width() * self.spec_height();
        let w = choose|w: Seq<Walker>|
            #[trigger] is_walk(b, self.key_size(), w) && w.last().at == e && walk_cost(b, w) < bound;
        assert(reachable_below(b, self.key_size(), e, MAX_DIST as int));
        self.lemma_reachable_is_found(e);
        let j = choose|j: int| 0 <= j < ends.len() && connected(b, #[trigger] ends[j], e);
        assert(0 <= j < ends.len() && connected(b, ends[j], e)) by {
            reveal(Maze::ends_known);
        }
        crate::region::lemma_connected_symmetric(b, ends[j], e);
        let p = choose|p: Seq<Coord>|
            #[trigger] crate::region::is_trail(b, p) && p[0] == e && p.last() == ends[j];
        let q = crate::region::lemma_trail_trimmed(b, p);
        let v = crate::walk::lemma_walk_along(b, self.key_size(), w, q);
        let k = self.lemma_walk_has_cost(v);
        assert(self.has_cost(ends[j], k));
        reveal(Maze::end_chosen_from);
    }

    /// The list of end regions is empty exactly when no end cell is
    /// classified.
    proof fn lemma_found_end(&self, ends: Seq<Coord>)
        requires
            self.ends_known(ends),
        ensures
            ends.len() > 0 <==> exists|d: Coord| self.valid(d) && #[trigger] self.kind_at(d)
                == PixelType::END,
    {
        reveal(Maze::ends_known);
        if ends.len() > 0 {
            assert(self.valid(ends[0]) && self.kind_at(ends[0]) == PixelType::END);
        }
        if exists|d: Coord| self.valid(d) && #[trigger] self.kind_at(d) == PixelType::END {
            let d = choose|d: Coord| self.valid(d) && #[trigger] self.kind_at(d) == PixelType::END;
            assert(self.valid(d) && self.kind_at(d) == PixelType::END);
        }
    }

    /// Searches the maze for the cheapest routes from the start cell, with
    /// keys of the given size, and chooses the end state.
    ///
    /// The search starts at the first cell of the start color, without keys
    /// and at cost 0, and runs until no recorded cost can be improved; a cost
    /// of `MAX_DIST` or more is never recorded. Cells are classified as the
    /// search comes to stand next to them, keys are registered and
    /// combinations formed as it steps onto key cells. It fails with
    /// `NoStart` if the grid has no cell of the start color, and with `NoEnd`
    /// if it has met no end cell.
    ///
    /// Afterwards every recorded cost is the cost of the cheapest walk to its
    /// cell with the keys of its combination, every walk that costs less than
    /// `MAX_DIST` ends on a recorded state, and the end state is the one that
    /// `set_end` chooses among the end cells met first in their regions.
    pub fn find_path(&mut self, key_height: u32, key_width: u32) -> (r: MazeResult<()>)
        requires
            old(self).wf(),
            old(self).fresh(),
        ensures
            final(self).wf(),
            final(self).board() == old(self).board(),
            final(self).key_size() == (key_height as nat, key_width as nat),
            r matches Err(e) ==> (e.kind == MazeErrorKind::NoStart && e.details@
                == "There is no start."@ && !has_start(old(self).board()) && final(self).fresh()) || (
            e.kind == MazeErrorKind::NoEnd && e.details@ == "There is no end zone."@ && has_start(
                old(self).board(),
            )),
            r is Ok <==> has_start(old(self).board()) && exists|d: Coord|
                final(self).valid(d) && #[trigger] final(self).kind_at(d) == PixelType::END,
            has_start(old(self).board()) ==> final(self).settled() && final(self).has_origin()
                && final(self).kinds_traced() && final(self).keys_known() && (exists|
                ends: Seq<Coord>,
            | #[trigger]
                final(self).ends_known(ends) && final(self).end_chosen_from(ends)
                    && final(self).end_state() == final(self).chosen(ends, ends.len() as int).0),
            r is Ok ==> exists|e: Coord|
                old(self).board().color(e) == end_color() && #[trigger] reachable(
                    old(self).board(),
                    (key_height as nat, key_width as nat),
                    e,
                ),
            (exists|e: Coord|
                old(self).board().color(e) == end_color() && #[trigger] reachable_below(
                    old(self).board(),
                    (key_height as nat, key_width as nat),
                    e,
                    MAX_DIST as int,
                )) ==> r is Ok,
            (exists|e: Coord|
                old(self).board().color(e) == end_color() && #[trigger] reachable_below(
                    old(self).board(),
                    (key_height as nat, key_width as nat),
                    e,
                    MAX_DIST - old(self).spec_width() * old(self).spec_height(),
                )) ==> final(self).end_state() is Some,
    {
        let ghost b = self.board();
        let start = match self.start_search(key_height, key_width) {
            Ok(start) => start,
            Err(e) => {
                proof {
                    lemma_no_start_no_walk(b, (key_height as nat, key_width as nat));
                }
                return Err(e);
            },
        };
        proof {
            assert(has_start(b)) by {
                assert(b.valid(start) && b.color(start) == start_color());
            }
        }
        let mut wave: VecDeque<(Coord, usize)> = VecDeque::new();
        wave.push_back((start, 0));
        let mut ends: Vec<Coord> = Vec::new();
        let ghost mut done = (start, 0usize);
        proof {
            assert(wave@ =~= seq![(start, 0usize)]);
            assert(ends@ =~= Seq::<Coord>::empty());
        }
        while wave.len() > 0
            invariant
                self.searching(start, wave@, done, 4, ends@),
                self.board() == b,
                self.key_size() == (key_height as nat, key_width as nat),
            decreases 2 * self.slack() + wave@.len(),
        {
            let ghost waiting = wave@;
            proof {
                self.lemma_wf_parts();
                lemma_potential_bounds(self.costs(), self.pool().len());
                self.lemma_search_pop(waiting, done);
            }
            let curr: (Coord, usize) = wave.pop_front().unwrap();
            proof {
                done = curr;
                assert(wave@ =~= waiting.drop_first());
                assert(self.grid_wf()) by {
                    self.lemma_wf_parts();
                }
                lemma_index_bounds(self.board(), curr.0);
            }
            let indx = curr.0.row as usize * self.width as usize + curr.0.col as usize;
            let curr_dist = match self.cost_of(indx, curr.1) {
                Some(dist) => dist,
                None => {
                    proof {
                        assert(false);
                    }
                    return Err(
                        MazeError::new(
                            MazeErrorKind::Other,
                            "Current pixel doesn't have current combination.".to_owned(),
                        ),
                    );
                },
            };
            let ghost measure = 2 * self.slack() + wave@.len();
            let mut i: usize = 0;
            while i < 4
                invariant
                    i <= 4,
                    done == curr,
                    self.searching(start, wave@, done, i as int, ends@),
                    self.has_cost(curr.0, curr.1),
                    self.cost(curr.0, curr.1) == curr_dist,
                    self.board() == b,
                    self.key_size() == (key_height as nat, key_width as nat),
                    2 * self.slack() + wave@.len() <= measure,
                decreases 4 - i,
            {
                let ghost prev = *self;
                self.expand(&curr.0, curr.1, curr_dist, i, &mut wave, &mut ends, Ghost(start));
                proof {
                    prev.lemma_advances_frame(self);
                }
                i = i + 1;
            }
            proof {
                self.lemma_wf_parts();
                lemma_potential_bounds(self.costs(), self.pool().len());
            }
        }
        let ghost searched = *self;
        proof {
            assert(wave@ =~= Seq::<(Coord, usize)>::empty());
            assert(forall|j: int|
                0 <= j < ends@.len() ==> self.valid(#[trigger] ends@[j]) && self.kind_at(ends@[j])
                    == PixelType::END) by {
                reveal(Maze::ends_known);
            }
        }
        let found = self.set_end(&ends);
        proof {
            searched.lemma_search_result(self, start, done, ends@, found);
            assert(first_start(b, start));
            assert(self.has_origin());
            assert(self.kinds_traced());
            if exists|e: Coord|
                b.color(e) == end_color() && #[trigger] reachable_below(
                    b,
                    (key_height as nat, key_width as nat),
                    e,
                    MAX_DIST as int,
                ) {
                let e = choose|e: Coord|
                    b.color(e) == end_color() && #[trigger] reachable_below(
                        b,
                        (key_height as nat, key_width as nat),
                        e,
                        MAX_DIST as int,
                    );
                self.lemma_reachable_is_found(e);
            }
            assert(self.spec_width() == b.width && self.spec_height() == b.height);
            assert(old(self).spec_width() == b.width && old(self).spec_height() == b.height);
            if exists|e: Coord|
                b.color(e) == end_color() && #[trigger] reachable_below(
                    b,
                    (key_height as nat, key_width as nat),
                    e,
                    MAX_DIST - old(self).spec_width() * old(self).spec_height(),
                ) {
                let e = choose|e: Coord|
                    b.color(e) == end_color() && #[trigger] reachable_below(
                        b,
                        (key_height as nat, key_width as nat),
                        e,
                        MAX_DIST - old(self).spec_width() * old(self).spec_height(),
                    );
                assert(reachable_below(
                    self.board(),
                    self.key_size(),
                    e,
                    MAX_DIST - self.spec_width() * self.spec_height(),
                ));
            }
        }
        if found {
            Ok(())
        } else {
            Err(MazeError::new(MazeErrorKind::NoEnd, "There is no end zone.".to_owned()))
        }
    }

    /// After a search, if a walk to a cell of the end color leaves enough of
    /// the range of costs to walk on through the cell's region, then an end
    /// state was chosen and a route leads from it back to the start: over
    /// cells that are no walls, by single steps, to a start cell reached
    /// without keys.
    pub proof fn lemma_reachable_end_is_routed(&self, e: Coord) -> (states: Seq<(Coord, usize)>)
        requires
            self.wf(),
            self.settled(),
            self.has_origin(),
            exists|ends: Seq<Coord>| #[trigger] self.ends_known(ends) && self.end_chosen_from(ends),
            self.board().color(e) == end_color(),
            reachable_below(
                self.board(),
                self.key_size(),
                e,
                MAX_DIST - self.spec_width() * self.spec_height(),
            ),
        ensures
            self.end_state() is Some,
            self.is_route(states),
            states[0] == self.end_state()->Some_0,
            forall|i: int|
                0 <= i < states.len() ==> self.valid((#[trigger] states[i]).0) && self.kind_at(
                    states[i].0,
                ) != PixelType::WALL,
            self.kind_at(states.last().0) == PixelType::START,
            self.pool()[states.last().1 as int] == zeros(8),
    {
        let ends = choose|ends: Seq<Coord>| #[trigger] self.ends_known(ends) && self.end_chosen_from(ends);
        self.lemma_end_is_chosen(ends, e);
        self.lemma_wf_parts();
        let (c, k) = self.end_state()->Some_0;
        let states = self.lemma_route_exists(c, k);
        self.lemma_route_is_walkable(states);
        states
    }

    /// The cells classified with a classified cell are classified.
    pub proof fn lemma_region_is_classified(&self, x: Coord, d: Coord)
        requires
            self.wf(),
            self.valid(x),
            self.kind_at(x) != PixelType::UNSET,
            classified_with(self.board(), x, d),
        ensures
            self.valid(d),
            self.kind_at(d) != PixelType::UNSET,
    {
        let b = self.board();
        self.lemma_wf_parts();
        if d != x {
            let known = Set::new(
                |c: Coord| b.valid(c) && b.color(c) == b.color(x) && self.kind_at(c) != PixelType::UNSET,
            );
            assert(known.contains(x));
            assert forall|a: Coord, n: Coord|
                #[trigger] known.contains(a) && b.valid(n) && #[trigger] adjacent(a, n) && b.color(n)
                    == b.color(a) implies known.contains(n) by {
                crate::coord::lemma_neighbor_adjacent(a);
                let i = choose|i: int| 0 <= i < 4 && neighbor(a, i) == n;
                assert(self.valid(a) && self.valid(neighbor(a, i)));
            }
            crate::region::lemma_closed_set_covers(b, x, known);
            assert(known.contains(d));
        }
    }

    /// After a search, the classified cells are those that belong with the
    /// first cell of the start color or with a cell that the search has stood
    /// next to, and each of them has the kind that its color and region give
    /// it.
    pub proof fn lemma_classified_exactly(&self, d: Coord)
        requires
            self.wf(),
            self.settled(),
            self.has_origin(),
            self.kinds_traced(),
            self.valid(d),
        ensures
            self.kind_at(d) != PixelType::UNSET <==> (exists|s: Coord|
                first_start(self.board(), s) && #[trigger] classified_with(self.board(), s, d)) || (
            exists|x: Coord| self.valid(x) && self.met(x) && #[trigger] classified_with(self.board(), x, d)),
            self.kind_at(d) != PixelType::UNSET ==> self.kind_at(d) == cell_kind(
                self.board(),
                self.key_size().0,
                self.key_size().1,
                d,
            ),
    {
        let b = self.board();
        self.lemma_wf_parts();
        let s = choose|s: Coord| #[trigger] first_start(b, s) && self.kinds_known(s);
        if self.kind_at(d) != PixelType::UNSET {
            reveal(Maze::kinds_known);
            if classified_with(b, s, d) {
                assert(first_start(b, s) && classified_with(b, s, d));
            }
        }
        if exists|t: Coord| first_start(b, t) && #[trigger] classified_with(b, t, d) {
            let t = choose|t: Coord| first_start(b, t) && #[trigger] classified_with(b, t, d);
            let o = choose|o: Coord| #[trigger] first_start(b, o) && self.has_cost(o, 0) && self.cost(o, 0) == 0;
            crate::walk::lemma_first_start_unique(b, t, o);
            self.lemma_cost_facts(o, 0);
            self.lemma_region_is_classified(t, d);
        }
        if exists|x: Coord| self.valid(x) && self.met(x) && #[trigger] classified_with(b, x, d) {
            let x = choose|x: Coord| self.valid(x) && self.met(x) && #[trigger] classified_with(b, x, d);
            let (c, k, i) = choose|c: Coord, k: usize, i: int|
                #[trigger] self.has_cost(c, k) && 0 <= i < 4 && #[trigger] neighbor(c, i) == x;
            assert(self.edge_relaxed(c, k, i)) by {
                reveal(Maze::settled);
                assert(self.relaxed_upto(c, k, 4));
            }
            self.lemma_region_is_classified(x, d);
        }
    }

    /// After a search, the registered colors are the colors of the key cells
    /// that the search has stood next to.
    pub proof fn lemma_registered_exactly(&self, color: Color)
        requires
            self.wf(),
            self.settled(),
            self.keys_known(),
        ensures
            self.registry().contains(color) <==> self.key_met(color),
    {
        if self.registry().contains(color) {
            reveal(Maze::keys_known);
            let q = self.registry().index_of(color);
            assert(self.key_met(self.registry()[q]));
        }
        if self.key_met(color) {
            let n = choose|n: Coord|
                self.valid(n) && self.kind_at(n) == PixelType::KEY && #[trigger] self.color_at(n) == color
                    && self.met(n);
            let (c, k, i) = choose|c: Coord, k: usize, i: int|
                #[trigger] self.has_cost(c, k) && 0 <= i < 4 && #[trigger] neighbor(c, i) == n;
            assert(self.edge_relaxed(c, k, i)) by {
                reveal(Maze::settled);
                assert(self.relaxed_upto(c, k, 4));
            }
            let k2 = choose|k2: usize| k2 < self.pool().len() && #[trigger] self.carries(k, n, k2);
            assert(self.carries(k, n, k2));
        }
    }
}

} // verus!
