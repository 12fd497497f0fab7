use vstd::prelude::*;
use std::collections::VecDeque;
use crate::board::lemma_index_bounds;
use crate::cell::PixelType;
use crate::classify::classified_with;
use crate::color::{step_weight, weight_of, Color};
use crate::coord::{direction, lemma_neighbor_back, neighbor, Coord};
use crate::maze::{Maze, MAX_DIST};
use crate::region::{connected, lemma_connected_refl};

verus! {

impl Maze {
    /// Whether the search has stood next to the cell `e`: some recorded state
    /// has it as a neighbor.
    pub open(crate) spec fn met(&self, e: Coord) -> bool {
        exists|c: Coord, k: usize, i: int|
            #[trigger] self.has_cost(c, k) && 0 <= i < 4 && #[trigger] neighbor(c, i) == e
    }

    /// Whether `ends` lists the end regions found so far: each of its cells is
    /// an end cell that the search has stood next to, and every end cell that
    /// is classified belongs to the region of one of them.
    #[verifier::opaque]
    pub open(crate) spec fn ends_known(&self, ends: Seq<Coord>) -> bool {
        &&& forall|j: int|
            0 <= j < ends.len() ==> self.valid(#[trigger] ends[j]) && self.kind_at(ends[j])
                == PixelType::END && self.met(ends[j])
        &&& forall|d: Coord| #[trigger]
            self.valid(d) && self.kind_at(d) == PixelType::END ==> exists|j: int|
                0 <= j < ends.len() && connected(self.board(), #[trigger] ends[j], d)
    }

    /// Whether every classified cell was classified with the cell `start` or
    /// with a cell that the search has stood next to.
    #[verifier::opaque]
    pub open(crate) spec fn kinds_known(&self, start: Coord) -> bool {
        forall|d: Coord| #[trigger]
            self.valid(d) && self.kind_at(d) != PixelType::UNSET ==> classified_with(
                self.board(),
                start,
                d,
            ) || exists|x: Coord|
                self.valid(x) && self.met(x) && #[trigger] classified_with(self.board(), x, d)
    }

    /// Whether the search has stood next to a key cell of the given color.
    pub open(crate) spec fn key_met(&self, color: Color) -> bool {
        exists|n: Coord|
            self.valid(n) && self.kind_at(n) == PixelType::KEY && #[trigger] self.color_at(n) == color
                && self.met(n)
    }

    /// Whether every registered color is the color of a key cell that the
    /// search has stood next to.
    #[verifier::opaque]
    pub open(crate) spec fn keys_known(&self) -> bool {
        forall|q: int| 0 <= q < self.registry().len() ==> self.key_met(#[trigger] self.registry()[q])
    }

    /// The state of a search from `start`: the maze's invariants hold, no end
    /// state is chosen yet, the origin is recorded, and `wave`, `done` and `n`
    /// describe its front and `ends` the end regions found.
    pub open(crate) spec fn searching(
        &self,
        start: Coord,
        wave: Seq<(Coord, usize)>,
        done: (Coord, usize),
        n: int,
        ends: Seq<Coord>,
    ) -> bool {
        &&& self.wf()
        &&& self.end_state() is None
        &&& self.valid(start)
        &&& self.kind_at(start) == PixelType::START
        &&& self.has_cost(start, 0)
        &&& self.cost(start, 0) == 0
        &&& self.search_front(wave, done, n)
        &&& self.ends_known(ends)
        &&& self.kinds_known(start)
        &&& self.keys_known()
    }

    /// A step of the search that changes no cost keeps the front.
    pub proof fn lemma_front_stays(
        &self,
        next: &Maze,
        wave: Seq<(Coord, usize)>,
        done: (Coord, usize),
        n: int,
    )
        requires
            self.wf(),
            self.advances_to(next),
            next.wf(),
            next.costs() == self.costs(),
            self.search_front(wave, done, n),
        ensures
            next.search_front(wave, done, n),
    {
        reveal(Maze::wf);
        reveal(Maze::advances_to);
        reveal(Maze::search_front);
        assert forall|c: Coord, k: usize| next.has_cost(c, k) == self.has_cost(c, k) && next.cost(c, k)
            == self.cost(c, k) by {}
        assert forall|j: int| 0 <= j < wave.len() implies next.has_cost((#[trigger] wave[j]).0, wave[j].1) by {
            assert(self.has_cost(wave[j].0, wave[j].1));
        }
        assert forall|c: Coord, k: usize| #[trigger] next.has_cost(c, k) implies wave.contains((c, k))
            || ((c, k) == done && next.relaxed_upto(c, k, n)) || next.relaxed_upto(c, k, 4) by {
            assert(self.has_cost(c, k));
            if wave.contains((c, k)) {
            } else if (c, k) == done && self.relaxed_upto(c, k, n) {
                self.lemma_relaxed_stays(next, c, k, n);
            } else {
                self.lemma_relaxed_stays(next, c, k, 4);
            }
        }
    }

    /// Recording a better cost for a state and putting the state on the wave
    /// keeps the front.
    pub proof fn lemma_front_relaxed(
        &self,
        next: &Maze,
        wave: Seq<(Coord, usize)>,
        done: (Coord, usize),
        n: int,
        nb: Coord,
        k2: usize,
    )
        requires
            self.wf(),
            self.advances_to(next),
            next.wf(),
            self.search_front(wave, done, n),
            next.has_cost(nb, k2),
            forall|c: Coord, k: usize|
                (c != nb || k != k2) ==> (#[trigger] next.has_cost(c, k)) == self.has_cost(c, k) && (
                self.has_cost(c, k) ==> next.cost(c, k) == self.cost(c, k)),
        ensures
            next.search_front(wave.push((nb, k2)), done, n),
    {
        reveal(Maze::wf);
        reveal(Maze::search_front);
        let wave2 = wave.push((nb, k2));
        assert(wave2[wave.len() as int] == (nb, k2));
        assert forall|j: int| 0 <= j < wave2.len() implies next.has_cost(
            (#[trigger] wave2[j]).0,
            wave2[j].1,
        ) by {
            if j < wave.len() {
                assert(wave2[j] == wave[j]);
                assert(self.has_cost(wave[j].0, wave[j].1));
            }
        }
        assert forall|c: Coord, k: usize| #[trigger] next.has_cost(c, k) implies wave2.contains((c, k))
            || ((c, k) == done && next.relaxed_upto(c, k, n)) || next.relaxed_upto(c, k, 4) by {
            if c == nb && k == k2 {
                assert(wave2.contains((c, k)));
            } else {
                assert(self.has_cost(c, k));
                if wave.contains((c, k)) {
                    let t = choose|t: int| 0 <= t < wave.len() && wave[t] == (c, k);
                    assert(wave2[t] == (c, k));
                } else if (c, k) == done && self.relaxed_upto(c, k, n) {
                    self.lemma_relaxed_stays(next, c, k, n);
                } else {
                    self.lemma_relaxed_stays(next, c, k, 4);
                }
            }
        }
    }

    /// Once the step in the next direction is settled too, the front has moved
    /// on by one direction.
    pub proof fn lemma_front_next(&self, wave: Seq<(Coord, usize)>, done: (Coord, usize), n: int)
        requires
            self.search_front(wave, done, n),
            self.edge_relaxed(done.0, done.1, n),
        ensures
            self.search_front(wave, done, n + 1),
    {
        reveal(Maze::search_front);
        assert forall|c: Coord, k: usize| #[trigger] self.has_cost(c, k) implies wave.contains((c, k))
            || ((c, k) == done && self.relaxed_upto(c, k, n + 1)) || self.relaxed_upto(c, k, 4) by {
            if (c, k) == done && self.relaxed_upto(c, k, n) {
                assert(self.relaxed_upto(c, k, n + 1));
            }
        }
    }

    /// What is known of the classified cells stays true through a step in
    /// which a cell changes its kind only if it is classified with a cell that
    /// the search stands next to.
    pub proof fn lemma_kinds_stay(&self, next: &Maze, start: Coord, nb: Coord)
        requires
            self.advances_to(next),
            self.kinds_known(start),
            next.valid(nb),
            next.met(nb),
            forall|d: Coord| #[trigger]
                self.valid(d) ==> next.kind_at(d) == self.kind_at(d) || classified_with(
                    self.board(),
                    nb,
                    d,
                ),
        ensures
            next.kinds_known(start),
    {
        reveal(Maze::kinds_known);
        reveal(Maze::advances_to);
        let b = self.board();
        assert forall|d: Coord| #[trigger]
            next.valid(d) && next.kind_at(d) != PixelType::UNSET implies classified_with(b, start, d)
            || exists|x: Coord| next.valid(x) && next.met(x) && #[trigger] classified_with(b, x, d) by {
            assert(self.valid(d));
            if next.kind_at(d) == self.kind_at(d) {
                if !classified_with(b, start, d) {
                    let x = choose|x: Coord|
                        self.valid(x) && self.met(x) && #[trigger] classified_with(b, x, d);
                    let (c, k, i) = choose|c: Coord, k: usize, i: int|
                        #[trigger] self.has_cost(c, k) && 0 <= i < 4 && #[trigger] neighbor(c, i) == x;
                    assert(next.has_cost(c, k));
                    assert(next.valid(x) && next.met(x) && classified_with(b, x, d));
                }
            } else {
                assert(classified_with(b, nb, d));
            }
        }
    }

    /// What is known of the registered colors stays true through a step that
    /// registers at most the color of a key cell that the search stands next
    /// to.
    pub proof fn lemma_keys_stay(&self, next: &Maze, nb: Coord)
        requires
            self.advances_to(next),
            self.keys_known(),
            next.registry() == self.registry() || (next.registry() == self.registry().push(
                next.color_at(nb),
            ) && next.valid(nb) && next.kind_at(nb) == PixelType::KEY && next.met(nb)),
        ensures
            next.keys_known(),
    {
        reveal(Maze::keys_known);
        reveal(Maze::advances_to);
        assert forall|q: int| 0 <= q < next.registry().len() implies next.key_met(
            #[trigger] next.registry()[q],
        ) by {
            if q < self.registry().len() {
                assert(next.registry()[q] == self.registry()[q]);
                assert(self.key_met(self.registry()[q]));
                let n = choose|n: Coord|
                    self.valid(n) && self.kind_at(n) == PixelType::KEY && #[trigger] self.color_at(n)
                        == self.registry()[q] && self.met(n);
                let (c, k, i) = choose|c: Coord, k: usize, i: int|
                    #[trigger] self.has_cost(c, k) && 0 <= i < 4 && #[trigger] neighbor(c, i) == n;
                assert(next.has_cost(c, k));
                assert(next.valid(n) && next.kind_at(n) == PixelType::KEY && next.color_at(n)
                    == next.registry()[q] && next.met(n));
            } else {
                assert(next.color_at(nb) == next.registry()[q]);
            }
        }
    }

    /// The list of end regions stays right through a step that classifies no
    /// cell.
    pub proof fn lemma_ends_stay(&self, next: &Maze, ends: Seq<Coord>)
        requires
            self.advances_to(next),
            next.kinds() == self.kinds(),
            self.ends_known(ends),
        ensures
            next.ends_known(ends),
    {
        reveal(Maze::advances_to);
        reveal(Maze::ends_known);
        assert forall|j: int| 0 <= j < ends.len() implies next.valid(#[trigger] ends[j])
            && next.kind_at(ends[j]) == PixelType::END && next.met(ends[j]) by {
            let e = ends[j];
            assert(self.valid(e) && self.met(e));
            let (c, k, i) = choose|c: Coord, k: usize, i: int|
                #[trigger] self.has_cost(c, k) && 0 <= i < 4 && #[trigger] neighbor(c, i) == e;
            assert(next.has_cost(c, k));
        }
        assert forall|d: Coord| #[trigger] next.valid(d) && next.kind_at(d) == PixelType::END implies exists|
            j: int,
        | 0 <= j < ends.len() && connected(next.board(), #[trigger] ends[j], d) by {
            assert(self.valid(d));
        }
    }
}

impl Maze {
    /// After the neighbor in direction `i` of a recorded state was classified,
    /// and put on the list if that showed a new end region, the list is right.
    pub proof fn lemma_ends_after_visit(
        &self,
        next: &Maze,
        before: Seq<Coord>,
        ends: Seq<Coord>,
        curr: Coord,
        comb: usize,
        i: int,
        found_end: bool,
    )
        requires
            self.advances_to(next),
            self.ends_known(before),
            self.has_cost(curr, comb),
            0 <= i < 4,
            self.valid(neighbor(curr, i)),
            ends == (if found_end {
                before.push(neighbor(curr, i))
            } else {
                before
            }),
            found_end == (self.kind_at(neighbor(curr, i)) == PixelType::UNSET && next.kind_at(
                neighbor(curr, i),
            ) == PixelType::END),
            forall|d: Coord| #[trigger]
                self.valid(d) ==> next.kind_at(d) == self.kind_at(d) || (self.kind_at(neighbor(curr, i))
                    == PixelType::UNSET && self.kind_at(d) == PixelType::UNSET && classified_with(
                    self.board(),
                    neighbor(curr, i),
                    d,
                ) && next.kind_at(d) == next.kind_at(neighbor(curr, i))),
        ensures
            next.ends_known(ends),
    {
        reveal(Maze::advances_to);
        reveal(Maze::ends_known);
        let b = next.board();
        let nb = neighbor(curr, i);
        assert forall|j: int| 0 <= j < ends.len() implies next.valid(#[trigger] ends[j])
            && next.kind_at(ends[j]) == PixelType::END && next.met(ends[j]) by {
            let e = ends[j];
            if j < before.len() {
                assert(e == before[j]);
                assert(self.valid(e) && self.met(e));
                let (c, k, t) = choose|c: Coord, k: usize, t: int|
                    #[trigger] self.has_cost(c, k) && 0 <= t < 4 && #[trigger] neighbor(c, t) == e;
                assert(next.has_cost(c, k));
            } else {
                assert(e == nb);
                assert(next.has_cost(curr, comb) && neighbor(curr, i) == e);
            }
        }
        assert forall|d: Coord| #[trigger] next.valid(d) && next.kind_at(d) == PixelType::END implies exists|
            j: int,
        | 0 <= j < ends.len() && connected(b, #[trigger] ends[j], d) by {
            assert(self.valid(d));
            if self.kind_at(d) == PixelType::END {
                let j = choose|j: int| 0 <= j < before.len() && connected(b, #[trigger] before[j], d);
                assert(ends[j] == before[j]);
            } else {
                assert(found_end);
                let last = ends.len() - 1;
                assert(ends[last] == nb);
                if d == nb {
                    lemma_connected_refl(b, nb);
                }
                assert(connected(b, ends[last], d));
            }
        }
    }

    /// Once the only combination that a step leads to has a cost no higher
    /// than the step gives, or the step would cost `MAX_DIST` or more, the
    /// step is settled.
    pub proof fn lemma_edge_done(&self, next: &Maze, curr: Coord, comb: usize, i: int, k2: usize)
        requires
            self.wf(),
            next.same_but_costs(self),
            self.valid(neighbor(curr, i)),
            self.kind_at(neighbor(curr, i)) != PixelType::UNSET,
            k2 < self.pool().len(),
            self.carries(comb, neighbor(curr, i), k2),
            next.reaches(
                neighbor(curr, i),
                k2,
                next.cost(curr, comb) + step_weight(self.color_at(neighbor(curr, i))),
            ),
        ensures
            next.edge_relaxed(curr, comb, i),
    {
        reveal(Maze::wf);
        let nb = neighbor(curr, i);
        assert(next.valid(nb));
        assert(next.kind_at(nb) == self.kind_at(nb));
        assert(next.carries(comb, nb, k2));
        assert forall|k3: usize|
            k3 < next.pool().len() && #[trigger] next.carries(comb, nb, k3) implies next.reaches(
            nb,
            k3,
            next.cost(curr, comb) + step_weight(next.color_at(nb)),
        ) by {
            next.lemma_carries_unique(comb, nb, k2, k3);
        }
    }

    /// Looks at the `i`-th neighbor of the cell `curr`, which is reached with
    /// combination `comb` at cost `curr_dist`: classifies the neighbor if
    /// need be, notes a new end region, and, where the step onto it is allowed
    /// and gives a cost below `MAX_DIST` that is lower than the recorded one,
    /// records the cost and puts the new state on the wave.
    pub(crate) fn expand(
        &mut self,
        curr: &Coord,
        comb: usize,
        curr_dist: u32,
        i: usize,
        wave: &mut VecDeque<(Coord, usize)>,
        ends: &mut Vec<Coord>,
        Ghost(start): Ghost<Coord>,
    )
        requires
            i < 4,
            old(self).searching(start, old(wave)@, (*curr, comb), i as int, old(ends)@),
            old(self).has_cost(*curr, comb),
            old(self).cost(*curr, comb) == curr_dist,
        ensures
            final(self).searching(start, final(wave)@, (*curr, comb), i + 1, final(ends)@),
            final(self).has_cost(*curr, comb),
            final(self).cost(*curr, comb) == curr_dist,
            old(self).advances_to(final(self)),
            2 * final(self).slack() + final(wave)@.len() <= 2 * old(self).slack() + old(wave)@.len(),
    {
        let ghost done = (*curr, comb);
        let nb: Coord = *curr + direction(i);
        proof {
            lemma_neighbor_back(*curr, i as int);
            assert(nb == neighbor(*curr, i as int));
        }
        if !self.is_valid(&nb) {
            proof {
                self.lemma_advances_refl();
                assert(self.edge_relaxed(*curr, comb, i as int));
                self.lemma_front_next(wave@, done, i as int);
            }
            return ;
        }
        let found_end = self.visit(&nb);
        if found_end {
            ends.push(nb);
        }
        let ghost s1 = *self;
        proof {
            old(self).lemma_front_stays(&s1, wave@, done, i as int);
            old(self).lemma_ends_after_visit(&s1, old(ends)@, ends@, *curr, comb, i as int, found_end);
            assert(s1.met(nb)) by {
                old(self).lemma_cost_still(&s1, *curr, comb);
            }
            old(self).lemma_kinds_stay(&s1, start, nb);
            old(self).lemma_keys_stay(&s1, nb);
            assert(self.grid_wf()) by {
                self.lemma_wf_parts();
            }
            lemma_index_bounds(self.board(), nb);
        }
        let indx = nb.row as usize * self.width as usize + nb.col as usize;
        let weight = weight_of(&self.pixels[indx].color);
        proof {
            self.lemma_cost_facts(*curr, comb);
        }
        let passed = self.pass(comb, &nb);
        let ghost s2 = *self;
        proof {
            old(self).lemma_advances_trans(&s1, &s2);
            old(self).lemma_origin_kept(&s2, start);
            s1.lemma_front_stays(&s2, wave@, done, i as int);
            s1.lemma_ends_stay(&s2, ends@);
            assert(s2.met(nb)) by {
                s1.lemma_cost_still(&s2, *curr, comb);
            }
            s1.lemma_kinds_stay(&s2, start, nb);
            s1.lemma_keys_stay(&s2, nb);
            assert(s2.has_cost(*curr, comb) && s2.cost(*curr, comb) == curr_dist);
            assert(s2.valid(nb) && s2.kind_at(nb) != PixelType::UNSET);
        }
        match passed {
            None => {
                proof {
                    assert(s2.edge_relaxed(*curr, comb, i as int));
                    s2.lemma_front_next(wave@, done, i as int);
                }
            },
            Some(k2) => {
                let new_dist: u64 = curr_dist as u64 + weight as u64;
                if new_dist < MAX_DIST as u64 {
                    let ghost waiting = wave@;
                    let improved = self.relax(&nb, k2, new_dist as u32, Ghost(3 - i as int), Ghost(comb));
                    if improved {
                        wave.push_back((nb, k2));
                    }
                    proof {
                        old(self).lemma_advances_trans(&s2, self);
                        old(self).lemma_origin_kept(self, start);
                        assert(nb != *curr);
                        assert(self.has_cost(*curr, comb) == s2.has_cost(*curr, comb));
                        assert(self.cost(*curr, comb) == curr_dist);
                        if improved {
                            s2.lemma_front_relaxed(self, waiting, done, i as int, nb, k2);
                        } else {
                            s2.lemma_front_stays(self, waiting, done, i as int);
                        }
                        s2.lemma_ends_stay(self, ends@);
                        assert(self.kinds() == s2.kinds());
                        assert(self.met(nb)) by {
                            s2.lemma_cost_still(self, *curr, comb);
                        }
                        s2.lemma_kinds_stay(self, start, nb);
                        s2.lemma_keys_stay(self, nb);
                    }
                }
                proof {
                    assert(self.has_cost(*curr, comb) && self.cost(*curr, comb) == curr_dist);
                    s2.lemma_edge_done(self, *curr, comb, i as int, k2);
                    self.lemma_front_next(wave@, done, i as int);
                }
            },
        }
    }
}

} // verus!
