use vstd::prelude::*;
use crate::board::{coord_of, lemma_coord_of, lemma_index_bounds, lemma_index_injective};
use crate::cell::PixelType;
use crate::classify::classified_with;
use crate::color::step_weight;
use crate::coord::{neighbor, Coord};
use crate::keycomb::{
    bit_at,
    comb_bits,
    keycomb_eq,
    keycomb_set,
    lemma_bit_after,
    lemma_comb_equal_symmetric,
    lemma_comb_equal_transitive,
    lemma_set_is_noop,
    with_bit,
};
use crate::maze::{Maze, MAX_DIST};
use crate::potential::{lemma_cell_insert, lemma_grid_grow, lemma_grid_update, potential, slot};

verus! {

impl Maze {
    /// Whether cell `n` is known to be reachable with combination `k2` at cost
    /// `d` or less. A cost of `MAX_DIST` or more counts as no route at all, so
    /// nothing is asked for it.
    pub open(crate) spec fn reaches(&self, n: Coord, k2: usize, d: int) -> bool {
        d >= MAX_DIST || (self.has_cost(n, k2) && self.cost(n, k2) <= d)
    }

    /// Whether the step from cell `c` with combination `k` to its `i`-th
    /// neighbor is settled: the neighbor, if it lies on the grid, is
    /// classified, a key on it is registered and the combination with that key
    /// is in the pool, and with every combination that the step leads to, the
    /// neighbor has a cost no higher than the cost of `c` plus the step.
    pub open(crate) spec fn edge_relaxed(&self, c: Coord, k: usize, i: int) -> bool {
        let n = neighbor(c, i);
        self.valid(n) ==> {
            &&& self.kind_at(n) != PixelType::UNSET
            &&& self.kind_at(n) == PixelType::KEY ==> exists|k2: usize|
                k2 < self.pool().len() && #[trigger] self.carries(k, n, k2)
            &&& forall|k2: usize|
                k2 < self.pool().len() && #[trigger] self.carries(k, n, k2) ==> self.reaches(
                    n,
                    k2,
                    self.cost(c, k) + step_weight(self.color_at(n)),
                )
        }
    }

    /// Whether the steps from a state in its first `n` directions are settled.
    pub open(crate) spec fn relaxed_upto(&self, c: Coord, k: usize, n: int) -> bool {
        forall|i: int| 0 <= i < n ==> #[trigger] self.edge_relaxed(c, k, i)
    }

    /// Whether the search has nothing left to do: all steps from all recorded
    /// states are settled, so that no recorded cost can be improved.
    #[verifier::opaque]
    pub open(crate) spec fn settled(&self) -> bool {
        forall|c: Coord, k: usize| #[trigger] self.has_cost(c, k) ==> self.relaxed_upto(c, k, 4)
    }

    /// The front of a search: only recorded states wait on `wave`, and every
    /// recorded state either waits there, or is the state `done` whose first
    /// `n` directions are settled, or has all its steps settled.
    #[verifier::opaque]
    pub open(crate) spec fn search_front(
        &self,
        wave: Seq<(Coord, usize)>,
        done: (Coord, usize),
        n: int,
    ) -> bool {
        &&& forall|j: int| 0 <= j < wave.len() ==> self.has_cost((#[trigger] wave[j]).0, wave[j].1)
        &&& forall|c: Coord, k: usize| #[trigger]
            self.has_cost(c, k) ==> wave.contains((c, k)) || ((c, k) == done && self.relaxed_upto(
                c,
                k,
                n,
            )) || self.relaxed_upto(c, k, 4)
    }

    /// In a pool without repetitions, a step onto a cell leads to at most one
    /// combination.
    pub proof fn lemma_carries_unique(&self, k: usize, n: Coord, k2: usize, k3: usize)
        requires
            self.pool_wf(),
            k2 < self.pool().len(),
            k3 < self.pool().len(),
            self.carries(k, n, k2),
            self.carries(k, n, k3),
        ensures
            k2 == k3,
    {
        if self.kind_at(n) == PixelType::KEY {
            let target = with_bit(self.pool()[k as int], self.key_bit(self.color_at(n)) as nat);
            lemma_comb_equal_symmetric(self.pool()[k3 as int], target);
            lemma_comb_equal_transitive(self.pool()[k2 as int], target, self.pool()[k3 as int]);
        }
    }

    /// A settled step stays settled while the search goes on, as long as the
    /// cost of the state it starts from stays.
    pub proof fn lemma_edge_stays(&self, next: &Maze, c: Coord, k: usize, i: int)
        requires
            self.wf(),
            self.advances_to(next),
            next.registry_wf(),
            next.pool_wf(),
            self.has_cost(c, k),
            next.cost(c, k) == self.cost(c, k),
            self.edge_relaxed(c, k, i),
        ensures
            next.edge_relaxed(c, k, i),
    {
        reveal(Maze::wf);
        reveal(Maze::advances_to);
        let n = neighbor(c, i);
        if self.valid(n) {
            assert(next.valid(n));
            assert(next.kind_at(n) == self.kind_at(n));
            assert(k < self.pool().len());
            let d = self.cost(c, k) + step_weight(self.color_at(n));
            if self.kind_at(n) == PixelType::KEY {
                let k2 = choose|k2: usize| k2 < self.pool().len() && #[trigger] self.carries(k, n, k2);
                self.lemma_carries_stay(next, k, n, k2);
            }
            assert forall|k2: usize|
                k2 < next.pool().len() && #[trigger] next.carries(k, n, k2) implies next.reaches(
                n,
                k2,
                d,
            ) by {
                if k2 < self.pool().len() {
                    self.lemma_carries_stay(next, k, n, k2);
                    assert(self.reaches(n, k2, d));
                    if d < MAX_DIST {
                        assert(self.has_cost(n, k2));
                    }
                } else {
                    if self.kind_at(n) == PixelType::KEY {
                        let k3 = choose|k3: usize|
                            k3 < self.pool().len() && #[trigger] self.carries(k, n, k3);
                        self.lemma_carries_stay(next, k, n, k3);
                        next.lemma_carries_unique(k, n, k2, k3);
                    }
                }
            }
        }
    }

    /// Steps that were settled stay settled while the search goes on.
    pub proof fn lemma_relaxed_stays(&self, next: &Maze, c: Coord, k: usize, n: int)
        requires
            self.wf(),
            self.advances_to(next),
            next.registry_wf(),
            next.pool_wf(),
            self.has_cost(c, k),
            next.cost(c, k) == self.cost(c, k),
            self.relaxed_upto(c, k, n),
        ensures
            next.relaxed_upto(c, k, n),
    {
        assert forall|i: int| 0 <= i < n implies #[trigger] next.edge_relaxed(c, k, i) by {
            assert(self.edge_relaxed(c, k, i));
            self.lemma_edge_stays(next, c, k, i);
        }
    }

    /// The cost recorded for the cell with number `indx` and combination `k`.
    pub(crate) fn cost_of(&self, indx: usize, k: usize) -> (r: Option<u32>)
        requires
            indx < self.costs().len(),
        ensures
            r == (if self.costs()[indx as int].contains_key(k) {
                Some(self.costs()[indx as int][k])
            } else {
                None
            }),
    {
        broadcast use vstd::std_specs::hash::group_hash_axioms;

        match self.pixels[indx].key_dists.get(&k) {
            Some(d) => Some(*d),
            None => None,
        }
    }

    /// Records the cost `d` for the cell with number `indx` and combination `k`.
    pub(crate) fn set_cost(&mut self, indx: usize, k: usize, d: u32)
        requires
            indx < old(self).costs().len(),
        ensures
            final(self).same_but_costs(old(self)),
            final(self).costs() == old(self).costs().update(
                indx as int,
                old(self).costs()[indx as int].insert(k, d),
            ),
            final(self).grid_wf() == old(self).grid_wf(),
    {
        broadcast use vstd::std_specs::hash::group_hash_axioms;

        self.pixels[indx].key_dists.insert(k, d);
        proof {
            assert(self.board().colors =~= old(self).board().colors);
            assert(self.kinds() =~= old(self).kinds());
            assert(self.costs() =~= old(self).costs().update(
                indx as int,
                old(self).costs()[indx as int].insert(k, d),
            ));
        }
    }
}

impl Maze {
    /// How much the search can still improve.
    pub open(crate) spec fn slack(&self) -> int {
        potential(self.costs(), self.pool().len())
    }

    /// No cell has a cost for a combination that the pool does not hold.
    pub proof fn lemma_costs_in_pool(&self)
        requires
            self.grid_wf(),
            self.costs_wf(),
        ensures
            forall|i: int, k: usize|
                0 <= i < self.costs().len() && k >= self.pool().len() ==> !#[trigger] self.costs()[i].contains_key(
                    k,
                ),
    {
        assert forall|i: int, k: usize|
            0 <= i < self.costs().len() && k >= self.pool().len() implies !#[trigger] self.costs()[i].contains_key(
            k,
        ) by {
            lemma_coord_of(self.board(), i);
            let c = coord_of(self.board().width, i);
            if self.costs()[i].contains_key(k) {
                assert(self.has_cost(c, k));
            }
        }
    }

    /// Registering a key and then adding a combination to the pool is a step
    /// of the search that keeps the invariants and the slack.
    proof fn lemma_grown(&self, mid: &Maze, next: &Maze)
        requires
            self.wf(),
            mid.same_but_registry(self),
            mid.registry_wf(),
            self.registry().len() <= mid.registry().len(),
            forall|q: int|
                0 <= q < self.registry().len() ==> #[trigger] mid.registry()[q] == self.registry()[q],
            next.same_but_pool(mid),
            next.pool_wf(),
            next.pool() == mid.pool() || (exists|bits: Seq<bool>| next.pool() == mid.pool().push(bits)),
        ensures
            next.wf(),
            self.advances_to(next),
            next.slack() == self.slack(),
    {
        reveal(Maze::wf);
        reveal(Maze::advances_to);
        self.lemma_kinds_wf_same(next);
        assert(next.grid_wf()) by {
            assert(next.board().colors.len() == self.board().colors.len());
            assert(next.board().width == self.board().width);
            assert(next.board().height == self.board().height);
        }
        assert(next.registry_wf());
        assert(self.advances_to(next)) by {
            assert forall|i: int| 0 <= i < self.pool().len() implies #[trigger] next.pool()[i]
                == self.pool()[i] by {
                assert(mid.pool()[i] == self.pool()[i]);
            }
            assert forall|c: Coord, k: usize| #[trigger] self.has_cost(c, k) implies next.has_cost(c, k)
                && next.cost(c, k) <= self.cost(c, k) by {}
            assert forall|c: Coord| #[trigger]
                self.valid(c) && self.kind_at(c) != PixelType::UNSET implies next.kind_at(c)
                == self.kind_at(c) by {}
        }
        assert forall|c: Coord, k: usize| #[trigger] next.has_cost(c, k) implies self.has_cost(c, k)
            && next.cost(c, k) == self.cost(c, k) by {}
        self.lemma_costs_wf_stays(next);
        self.lemma_end_wf_stays(next);
        self.lemma_costs_in_pool();
        if next.pool().len() > self.pool().len() {
            lemma_grid_grow(self.costs(), self.pool().len());
        }
    }

    /// Classifies the cell at `nb` if the search has not met it before, and
    /// tells whether that has shown an end region.
    pub(crate) fn visit(&mut self, nb: &Coord) -> (found_end: bool)
        requires
            old(self).wf(),
            old(self).valid(*nb),
        ensures
            final(self).wf(),
            old(self).advances_to(final(self)),
            final(self).same_but_kinds(old(self)),
            final(self).kind_at(*nb) != PixelType::UNSET,
            final(self).kinds() == crate::classify::kinds_after(
                old(self).board(),
                old(self).key_size(),
                old(self).kinds(),
                *nb,
            ),
            found_end == (old(self).kind_at(*nb) == PixelType::UNSET && final(self).kind_at(*nb)
                == PixelType::END),
            forall|d: Coord| #[trigger]
                old(self).valid(d) ==> final(self).kind_at(d) == old(self).kind_at(d) || (old(
                    self,
                ).kind_at(*nb) == PixelType::UNSET && old(self).kind_at(d) == PixelType::UNSET
                    && classified_with(old(self).board(), *nb, d) && final(self).kind_at(d)
                    == final(self).kind_at(*nb)),
    {
        proof {
            self.lemma_wf_parts();
            lemma_index_bounds(self.board(), *nb);
        }
        let indx = nb.row as usize * self.width as usize + nb.col as usize;
        let mut found_end = false;
        proof {
            crate::classify::lemma_classify_twice(
                self.board(),
                self.key_size(),
                self.kinds(),
                *nb,
            );
        }
        if self.pixels[indx].p_type == PixelType::UNSET {
            self.set_area_at(nb);
            if self.pixels[indx].p_type == PixelType::END {
                found_end = true;
            }
        }
        proof {
            assert(self.valid(*nb));
            assert forall|d: Coord| #[trigger] old(self).valid(d) implies self.kind_at(d) == old(
                self,
            ).kind_at(d) || (old(self).kind_at(*nb) == PixelType::UNSET && old(self).kind_at(d)
                == PixelType::UNSET && classified_with(old(self).board(), *nb, d) && self.kind_at(d)
                == self.kind_at(*nb)) by {
                if self.kind_at(d) != old(self).kind_at(d) {
                    assert(old(self).valid(*nb));
                    if d != *nb {
                        crate::region::lemma_region_shared(old(self).board(), *nb, d);
                    }
                }
            }
            old(self).lemma_classified_keeps_wf(self);
        }
        found_end
    }

    /// The combination that one holds after stepping onto the classified cell
    /// at `nb` with combination `comb`, or `None` where the step is not
    /// allowed. A key that is met for the first time is registered, and a
    /// combination formed for the first time joins the pool.
    pub(crate) fn pass(&mut self, comb: usize, nb: &Coord) -> (r: Option<usize>)
        requires
            old(self).wf(),
            old(self).valid(*nb),
            old(self).kind_at(*nb) != PixelType::UNSET,
            comb < old(self).pool().len(),
        ensures
            final(self).wf(),
            old(self).advances_to(final(self)),
            final(self).board() == old(self).board(),
            final(self).kinds() == old(self).kinds(),
            final(self).costs() == old(self).costs(),
            final(self).end_state() == old(self).end_state(),
            final(self).slack() == old(self).slack(),
            final(self).registry() == old(self).registry() || (old(self).kind_at(*nb)
                == PixelType::KEY && final(self).registry() == old(self).registry().push(
                old(self).color_at(*nb),
            )),
            r matches Some(k2) ==> k2 < final(self).pool().len() && final(self).carries(comb, *nb, k2),
            r is None ==> old(self).kind_at(*nb) != PixelType::KEY && forall|k2: usize|
                !final(self).carries(comb, *nb, k2),
    {
        proof {
            self.lemma_wf_parts();
            lemma_index_bounds(self.board(), *nb);
        }
        let indx = nb.row as usize * self.width as usize + nb.col as usize;
        let kind = self.pixels[indx].p_type;
        let color = self.pixels[indx].color;
        proof {
            self.lemma_advances_refl();
        }
        match kind {
            PixelType::KEY => {
                let pos = self.key_position(color);
                let ghost mid = *self;
                proof {
                    crate::registry::lemma_distinct_colors(self.registry());
                    assert(self.pool_wf());
                }
                let new_key_comb = keycomb_set(&self.key_combs[comb], pos);
                proof {
                    assert forall|q: int| q >= self.registry().len() implies !#[trigger] bit_at(
                        comb_bits(new_key_comb),
                        q,
                    ) by {
                        lemma_bit_after(self.pool()[comb as int], pos as nat, q);
                        assert(!bit_at(self.pool()[comb as int], q));
                    }
                }
                let k2 = self.intern(new_key_comb);
                proof {
                    old(self).lemma_grown(&mid, self);
                    assert(self.carries(comb, *nb, k2));
                }
                Some(k2)
            },
            PixelType::ZONE => {
                match self.key_index(&color) {
                    Some(pos) => {
                        proof {
                            crate::registry::lemma_distinct_colors(self.registry());
                            lemma_set_is_noop(self.pool()[comb as int], pos as nat);
                        }
                        let with_key = keycomb_set(&self.key_combs[comb], pos);
                        if keycomb_eq(&with_key, &self.key_combs[comb]) {
                            Some(comb)
                        } else {
                            None
                        }
                    },
                    None => None,
                }
            },
            PixelType::WALL => None,
            PixelType::UNSET => None,
            _ => Some(comb),
        }
    }

    /// Records for the cell at `nb` and the combination `k2` the cost `d`,
    /// which a step from a neighbor gives, unless a cost as low is recorded
    /// already; tells whether the recorded cost has changed.
    pub(crate) fn relax(
        &mut self,
        nb: &Coord,
        k2: usize,
        d: u32,
        Ghost(i): Ghost<int>,
        Ghost(k0): Ghost<usize>,
    ) -> (improved: bool)
        requires
            old(self).wf(),
            old(self).valid(*nb),
            k2 < old(self).pool().len(),
            d < MAX_DIST,
            0 <= i < 4,
            old(self).has_cost(neighbor(*nb, i), k0),
            old(self).cost(neighbor(*nb, i), k0) + step_weight(old(self).color_at(*nb)) <= d,
            old(self).carries(k0, *nb, k2),
        ensures
            final(self).wf(),
            old(self).advances_to(final(self)),
            final(self).same_but_costs(old(self)),
            final(self).reaches(*nb, k2, d as int),
            improved ==> final(self).cost(*nb, k2) == d && final(self).slack() < old(self).slack(),
            !improved ==> final(self).costs() == old(self).costs(),
            forall|c: Coord, k: usize|
                (c != *nb || k != k2) ==> (#[trigger] final(self).has_cost(c, k)) == old(self).has_cost(
                    c,
                    k,
                ) && (old(self).has_cost(c, k) ==> final(self).cost(c, k) == old(self).cost(c, k)),
    {
        proof {
            self.lemma_wf_parts();
            lemma_index_bounds(self.board(), *nb);
        }
        let indx = nb.row as usize * self.width as usize + nb.col as usize;
        proof {
            self.lemma_advances_refl();
        }
        let improved = match self.cost_of(indx, k2) {
            None => true,
            Some(known) => known > d,
        };
        if improved {
            self.set_cost(indx, k2, d);
            proof {
                let b = self.board();
                assert(self.grid_wf());
                assert(self.registry_wf() && self.pool_wf());
                assert forall|c: Coord, k: usize| (c != *nb || k != k2) implies (
                #[trigger] self.has_cost(c, k)) == old(self).has_cost(c, k) && (old(self).has_cost(c, k)
                    ==> self.cost(c, k) == old(self).cost(c, k)) by {
                    if self.valid(c) {
                        lemma_index_bounds(b, c);
                        if b.index(c) == b.index(*nb) {
                            lemma_index_injective(b, c, *nb);
                        }
                    }
                }
                assert(self.has_cost(*nb, k2) && self.cost(*nb, k2) == d);
                assert(neighbor(*nb, i) != *nb);
                assert(old(self).advances_to(self)) by {
                    reveal(Maze::advances_to);
                    assert forall|c: Coord, k: usize| #[trigger] old(self).has_cost(c, k) implies self.has_cost(
                        c,
                        k,
                    ) && self.cost(c, k) <= old(self).cost(c, k) by {
                        if c == *nb && k == k2 {
                        } else {
                            assert(self.has_cost(c, k) == old(self).has_cost(c, k));
                        }
                    }
                    assert forall|c: Coord| #[trigger]
                        old(self).valid(c) && old(self).kind_at(c) != PixelType::UNSET implies self.kind_at(
                        c,
                    ) == old(self).kind_at(c) by {}
                }
                old(self).lemma_kinds_wf_same(self);
                assert(self.comes_from(*nb, k2, i, k0)) by {
                    reveal(Maze::comes_from);
                    assert(self.has_cost(neighbor(*nb, i), k0) == old(self).has_cost(neighbor(*nb, i), k0));
                    old(self).lemma_carries_stay(self, k0, *nb, k2);
                }
                assert forall|c: Coord, k: usize| #[trigger] self.has_cost(c, k) implies (old(
                    self,
                ).has_cost(c, k) && self.cost(c, k) == old(self).cost(c, k)) || (k < self.pool().len()
                    && self.cost(c, k) < MAX_DIST && self.kind_at(c) != PixelType::UNSET && self.kind_at(c)
                    != PixelType::WALL && (self.is_origin(c, k) || exists|i: int, k0: usize| #[trigger]
                    self.comes_from(c, k, i, k0))) by {
                    if c == *nb && k == k2 {
                    } else {
                        assert(self.has_cost(c, k) == old(self).has_cost(c, k));
                    }
                }
                old(self).lemma_costs_wf_stays(self);
                old(self).lemma_end_wf_stays(self);
                self.lemma_wf_parts();
                let cells = old(self).costs();
                let m = cells[indx as int];
                lemma_cell_insert(m, k2, d, old(self).pool().len());
                lemma_grid_update(cells, indx as int, m.insert(k2, d), old(self).pool().len());
                assert(slot(m, k2) > d);
            }
        }
        improved
    }
}

} // verus!
