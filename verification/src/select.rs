use vstd::prelude::*;
use crate::board::lemma_index_bounds;
use crate::cell::PixelType;
use crate::color::{end_color, Color};
use crate::coord::{direction, neighbor, Coord};
use crate::maze::{Maze, MAX_DIST};

verus! {

/// The combination among the first `n` for which `m` records the lowest cost
/// below `bound`, with that cost; the first combination with `bound` if there
/// is none. Among combinations of equal cost the one with the lowest number
/// wins.
pub open spec fn cheapest_comb(m: Map<usize, u32>, n: nat, bound: int) -> (usize, int)
    decreases n,
{
    if n == 0 {
        (0, bound)
    } else {
        let (k, d) = cheapest_comb(m, (n - 1) as nat, bound);
        let last = (n - 1) as usize;
        if m.contains_key(last) && m[last] < d {
            (last, m[last] as int)
        } else {
            (k, d)
        }
    }
}

impl Maze {
    /// The cheapest of the first `n` neighbors of cell `c` that have the end
    /// color and are cheaper to reach with combination `k` than `bound`, with
    /// its cost; the cell itself with `bound` if there is none. Among equally
    /// cheap neighbors the first one wins.
    pub open(crate) spec fn lowest_end(&self, c: Coord, k: usize, bound: int, n: int) -> (Coord, int)
        decreases n,
    {
        if n <= 0 {
            (c, bound)
        } else {
            let (p, d) = self.lowest_end(c, k, bound, n - 1);
            let nb = neighbor(c, n - 1);
            if self.has_cost(nb, k) && self.color_at(nb) == end_color() && self.cost(nb, k) < d {
                (nb, self.cost(nb, k))
            } else {
                (p, d)
            }
        }
    }

    /// Where the walk from cell `c`, which is reached with combination `k` at
    /// cost `d` or more, over ever cheaper neighbors of the end color comes to
    /// rest, with the cost there.
    pub open(crate) spec fn region_low(&self, c: Coord, k: usize, d: int) -> (Coord, int)
        decreases d,
    {
        let (p, d2) = self.lowest_end(c, k, d, 4);
        if p != c && 0 <= d2 < d {
            self.region_low(p, k, d2)
        } else {
            (c, d)
        }
    }

    /// The end state chosen from the first `n` candidates, with its cost:
    /// each candidate in turn gets the combination with which it is cheapest
    /// to reach, among those that beat the best cost so far, and is walked
    /// down from; where that ends below the best cost so far, it becomes the
    /// choice.
    pub open(crate) spec fn chosen(&self, ends: Seq<Coord>, n: int) -> (Option<(Coord, usize)>, int)
        decreases n,
    {
        if n <= 0 {
            (None, MAX_DIST as int)
        } else {
            let (e, min) = self.chosen(ends, n - 1);
            let c = ends[n - 1];
            let (k, d) = cheapest_comb(self.costs_at(c), self.pool().len(), min);
            let (p, d2) = self.region_low(c, k, d);
            if d2 < min {
                (Some((p, k)), d2)
            } else {
                (e, min)
            }
        }
    }

    /// Whether two mazes differ at most in the end state they settled on.
    pub open(crate) spec fn same_but_end(&self, other: &Maze) -> bool {
        &&& self.board() == other.board()
        &&& self.kinds() == other.kinds()
        &&& self.costs() == other.costs()
        &&& self.registry() == other.registry()
        &&& self.pool() == other.pool()
        &&& self.key_size() == other.key_size()
    }

    /// Whether no neighbor of cell `e` that has the end color is cheaper to
    /// reach with combination `k` than `d`.
    pub open(crate) spec fn lowest_around(&self, e: Coord, k: usize, d: int, n: int) -> bool {
        forall|i: int|
            0 <= i < n && self.valid(#[trigger] neighbor(e, i)) && self.color_at(neighbor(e, i))
                == end_color() && self.has_cost(neighbor(e, i), k) ==> self.cost(neighbor(e, i), k) >= d
    }

    /// Whether the end state was chosen from the candidates `ends`: it has a
    /// recorded cost that is no higher than any cost recorded for a candidate,
    /// and no neighbor of the end color is cheaper to reach with the same
    /// combination; and there is none only if no candidate has a cost.
    #[verifier::opaque]
    pub open(crate) spec fn end_chosen_from(&self, ends: Seq<Coord>) -> bool {
        match self.end_state() {
            Some((e, k)) => {
                &&& self.has_cost(e, k)
                &&& self.kind_at(e) == PixelType::END
                &&& self.lowest_around(e, k, self.cost(e, k), 4)
                &&& forall|j: int, k2: usize|
                    0 <= j < ends.len() && #[trigger] self.has_cost(ends[j], k2) ==> self.cost(e, k)
                        <= self.cost(ends[j], k2)
            },
            None => forall|j: int, k2: usize|
                0 <= j < ends.len() ==> !#[trigger] self.has_cost(ends[j], k2),
        }
    }

    /// The choice of the end state depends on the grid, the costs and the
    /// pool alone.
    pub proof fn lemma_lowest_end_same(&self, next: &Maze, c: Coord, k: usize, bound: int, n: int)
        requires
            next.same_but_end(self),
        ensures
            next.lowest_end(c, k, bound, n) == self.lowest_end(c, k, bound, n),
        decreases n,
    {
        if n > 0 {
            self.lemma_lowest_end_same(next, c, k, bound, n - 1);
        }
    }

    /// The choice of the end state depends on the grid, the costs and the
    /// pool alone.
    pub proof fn lemma_region_low_same(&self, next: &Maze, c: Coord, k: usize, d: int)
        requires
            next.same_but_end(self),
        ensures
            next.region_low(c, k, d) == self.region_low(c, k, d),
        decreases d,
    {
        self.lemma_lowest_end_same(next, c, k, d, 4);
        let (p, d2) = self.lowest_end(c, k, d, 4);
        if p != c && 0 <= d2 < d {
            self.lemma_region_low_same(next, p, k, d2);
        }
    }

    /// The choice of the end state depends on the grid, the costs and the
    /// pool alone.
    pub proof fn lemma_chosen_same(&self, next: &Maze, ends: Seq<Coord>, n: int)
        requires
            next.same_but_end(self),
        ensures
            next.chosen(ends, n) == self.chosen(ends, n),
        decreases n,
    {
        if n > 0 {
            self.lemma_chosen_same(next, ends, n - 1);
            let (e, min) = self.chosen(ends, n - 1);
            let c = ends[n - 1];
            let (k, d) = cheapest_comb(self.costs_at(c), self.pool().len(), min);
            self.lemma_region_low_same(next, c, k, d);
        }
    }

    /// Choosing an end state keeps the invariant.
    pub proof fn lemma_wf_with_end(&self, next: &Maze)
        requires
            self.wf(),
            next.same_but_end(self),
            next.end_wf(),
        ensures
            next.wf(),
    {
        reveal(Maze::wf);
        self.lemma_kinds_wf_same(next);
        assert(next.grid_wf()) by {
            assert(next.board().colors.len() == self.board().colors.len());
            assert(next.board().width == self.board().width);
            assert(next.board().height == self.board().height);
        }
        assert(self.advances_to(next)) by {
            reveal(Maze::advances_to);
            assert forall|c: Coord, k: usize| #[trigger] self.has_cost(c, k) implies next.has_cost(c, k)
                && next.cost(c, k) <= self.cost(c, k) by {}
            assert forall|c: Coord| #[trigger]
                self.valid(c) && self.kind_at(c) != PixelType::UNSET implies next.kind_at(c)
                == self.kind_at(c) by {}
        }
        assert forall|c: Coord, k: usize| #[trigger] next.has_cost(c, k) implies self.has_cost(c, k)
            && next.cost(c, k) == self.cost(c, k) by {}
        self.lemma_costs_wf_stays(next);
    }

    /// Chooses the end state among the end cells that the search met first in
    /// their regions. For each of them it takes the combination with which the
    /// cell is cheapest to reach, then walks on to neighbors of the end color
    /// that are cheaper to reach with that combination, as long as there is
    /// one; the cheapest cell found this way, over all candidates, becomes the
    /// end state. Tells whether there was any candidate.
    pub fn set_end(&mut self, ends: &Vec<Coord>) -> (found: bool)
        requires
            old(self).wf(),
            old(self).end_state() is None,
            forall|j: int|
                0 <= j < ends@.len() ==> old(self).valid(#[trigger] ends@[j]) && old(self).kind_at(
                    ends@[j],
                ) == PixelType::END,
        ensures
            final(self).wf(),
            final(self).same_but_end(old(self)),
            found == (ends@.len() > 0),
            final(self).end_state() == old(self).chosen(ends@, ends@.len() as int).0,
            final(self).end_chosen_from(ends@),
    {
        proof {
            self.lemma_wf_parts();
            reveal(Maze::end_chosen_from);
        }
        if ends.len() == 0 {
            self.end = None;
            proof {
                old(self).lemma_wf_with_end(self);
            }
            return false;
        }
        proof {
            reveal_with_fuel(Maze::chosen, 2);
        }
        let combs = self.key_combs.len();
        let mut min_dist: u32 = MAX_DIST;
        let mut j: usize = 0;
        while j < ends.len()
            invariant
                j <= ends@.len(),
                combs == self.pool().len(),
                old(self).wf(),
                self.same_but_end(old(self)),
                self.grid_wf(),
                old(self).kinds_wf(),
                old(self).costs_wf(),
                forall|t: int|
                    0 <= t < ends@.len() ==> self.valid(#[trigger] ends@[t]) && self.kind_at(ends@[t])
                        == PixelType::END,
                match self.end_state() {
                    Some((e, k)) => self.has_cost(e, k) && self.cost(e, k) == min_dist && self.kind_at(e)
                        == PixelType::END && self.lowest_around(e, k, min_dist as int, 4),
                    None => min_dist == MAX_DIST,
                },
                forall|t: int, k2: usize|
                    0 <= t < j && #[trigger] self.has_cost(ends@[t], k2) ==> min_dist <= self.cost(
                        ends@[t],
                        k2,
                    ),
                (self.end_state(), min_dist as int) == old(self).chosen(ends@, j as int),
            decreases ends@.len() - j,
        {
            let mut curr: Coord = ends[j];
            let mut curr_min_dist: u32 = min_dist;
            let mut key_comb: usize = 0;
            proof {
                lemma_index_bounds(self.board(), curr);
            }
            let indx = curr.row as usize * self.width as usize + curr.col as usize;
            let mut k: usize = 0;
            while k < combs
                invariant
                    k <= combs,
                    indx == self.board().index(curr),
                    indx < self.costs().len(),
                    self.valid(curr),
                    curr_min_dist <= min_dist,
                    curr_min_dist < min_dist ==> self.has_cost(curr, key_comb) && self.cost(
                        curr,
                        key_comb,
                    ) == curr_min_dist,
                    forall|k2: usize|
                        k2 < k && #[trigger] self.has_cost(curr, k2) ==> curr_min_dist <= self.cost(
                            curr,
                            k2,
                        ),
                    (key_comb, curr_min_dist as int) == cheapest_comb(
                        self.costs()[indx as int],
                        k as nat,
                        min_dist as int,
                    ),
                decreases combs - k,
            {
                match self.cost_of(indx, k) {
                    Some(dist) => {
                        if dist < curr_min_dist {
                            key_comb = k;
                            curr_min_dist = dist;
                        }
                    },
                    None => {},
                }
                k = k + 1;
            }
            let ghost best = curr_min_dist;
            let ghost rest = old(self).region_low(curr, key_comb, curr_min_dist as int);
            let ghost choice = self.end_state();
            let ghost low = min_dist;
            proof {
                assert(old(self).costs_at(curr) == self.costs()[indx as int]);
                assert forall|k2: usize| #[trigger] self.has_cost(ends@[j as int], k2) implies best
                    <= self.cost(ends@[j as int], k2) by {
                    assert(old(self).has_cost(curr, k2));
                    assert(k2 < combs);
                }
            }
            loop
                invariant_except_break
                    old(self).region_low(curr, key_comb, curr_min_dist as int) == rest,
                    self.end_state() == choice,
                    min_dist == low,
                    self.valid(curr),
                    curr_min_dist <= best,
                    best <= min_dist,
                    curr_min_dist < min_dist ==> self.has_cost(curr, key_comb) && self.cost(
                        curr,
                        key_comb,
                    ) == curr_min_dist && self.kind_at(curr) == PixelType::END,
                    forall|k2: usize| #[trigger]
                        self.has_cost(ends@[j as int], k2) ==> best <= self.cost(ends@[j as int], k2),
                    match self.end_state() {
                        Some((e, k)) => self.has_cost(e, k) && self.cost(e, k) == min_dist
                            && self.kind_at(e) == PixelType::END && self.lowest_around(
                            e,
                            k,
                            min_dist as int,
                            4,
                        ),
                        None => min_dist == MAX_DIST,
                    },
                    forall|t: int, k2: usize|
                        0 <= t < j && #[trigger] self.has_cost(ends@[t], k2) ==> min_dist <= self.cost(
                            ends@[t],
                            k2,
                        ),
                invariant
                    j < ends@.len(),
                    combs == self.pool().len(),
                    old(self).wf(),
                    self.same_but_end(old(self)),
                    self.grid_wf(),
                    old(self).kinds_wf(),
                    old(self).costs_wf(),
                    forall|t: int|
                        0 <= t < ends@.len() ==> self.valid(#[trigger] ends@[t]) && self.kind_at(
                            ends@[t],
                        ) == PixelType::END,
                ensures
                    (self.end_state(), min_dist as int) == (if rest.1 < low {
                        (Some((rest.0, key_comb)), rest.1)
                    } else {
                        (choice, low as int)
                    }),
                    match self.end_state() {
                        Some((e, k)) => self.has_cost(e, k) && self.cost(e, k) == min_dist
                            && self.kind_at(e) == PixelType::END && self.lowest_around(
                            e,
                            k,
                            min_dist as int,
                            4,
                        ),
                        None => min_dist == MAX_DIST,
                    },
                    forall|t: int, k2: usize|
                        0 <= t < j + 1 && #[trigger] self.has_cost(ends@[t], k2) ==> min_dist
                            <= self.cost(ends@[t], k2),
                decreases curr_min_dist,
            {
                let mut next: Coord = curr;
                let ghost here = curr_min_dist;
                let mut i: usize = 0;
                while i < 4
                    invariant
                        i <= 4,
                        self.grid_wf(),
                        self.valid(curr),
                        curr_min_dist <= here,
                        next == curr ==> curr_min_dist == here && self.lowest_around(
                            curr,
                            key_comb,
                            here as int,
                            i as int,
                        ),
                        next != curr ==> curr_min_dist < here && self.valid(next) && self.color_at(next)
                            == end_color() && self.has_cost(next, key_comb) && self.cost(next, key_comb)
                            == curr_min_dist,
                        self.same_but_end(old(self)),
                        (next, curr_min_dist as int) == old(self).lowest_end(
                            curr,
                            key_comb,
                            here as int,
                            i as int,
                        ),
                    decreases 4 - i,
                {
                    let nb: Coord = curr + direction(i);
                    match self.pixel_indx(&nb) {
                        Ok(nb_indx) => {
                            if self.pixels[nb_indx].color == Color::end() {
                                match self.cost_of(nb_indx, key_comb) {
                                    Some(nb_dist) => {
                                        if nb_dist < curr_min_dist {
                                            next = nb;
                                            curr_min_dist = nb_dist;
                                        }
                                    },
                                    None => {},
                                }
                            }
                        },
                        Err(_) => {},
                    }
                    proof {
                        if next == curr {
                            assert(nb == neighbor(curr, i as int));
                            assert(self.lowest_around(curr, key_comb, here as int, i + 1));
                        } else {
                            crate::coord::lemma_neighbor_back(curr, i as int);
                        }
                        assert(nb == neighbor(curr, i as int));
                        assert(old(self).has_cost(nb, key_comb) == self.has_cost(nb, key_comb));
                        reveal_with_fuel(Maze::lowest_end, 2);
                    }
                    i = i + 1;
                }
                proof {
                    reveal_with_fuel(Maze::region_low, 2);
                }
                if next == curr {
                    let ghost prev = *self;
                    proof {
                        assert(rest == (curr, curr_min_dist as int));
                    }
                    if curr_min_dist < min_dist {
                        self.end = Some((curr, key_comb));
                        min_dist = curr_min_dist;
                        proof {
                            assert(self.board().colors =~= old(self).board().colors);
                            assert(self.kinds() =~= old(self).kinds());
                            assert(self.costs() =~= old(self).costs());
                            assert(self.pool() =~= old(self).pool());
                            assert(prev.lowest_around(curr, key_comb, here as int, 4));
                            assert(self.lowest_around(curr, key_comb, min_dist as int, 4)) by {
                                assert forall|i: int|
                                    0 <= i < 4 && self.valid(#[trigger] neighbor(curr, i))
                                        && self.color_at(neighbor(curr, i)) == end_color()
                                        && self.has_cost(neighbor(curr, i), key_comb) implies self.cost(
                                    neighbor(curr, i),
                                    key_comb,
                                ) >= min_dist by {
                                    assert(prev.valid(neighbor(curr, i)));
                                }
                            }
                        }
                    }
                    proof {
                        assert forall|t: int, k2: usize|
                            0 <= t < j + 1 && #[trigger] self.has_cost(ends@[t], k2) implies min_dist
                            <= self.cost(ends@[t], k2) by {
                            assert(prev.has_cost(ends@[t], k2));
                        }
                    }
                    break ;
                }
                proof {
                    assert(old(self).has_cost(next, key_comb));
                    assert(old(self).valid(next));
                    assert(old(self).kind_at(next) != PixelType::UNSET);
                    assert(self.kind_at(next) == PixelType::END);
                }
                curr = next;
            }
            proof {
                reveal_with_fuel(Maze::chosen, 2);
            }
            j = j + 1;
        }
        proof {
            reveal(Maze::end_chosen_from);
            assert(self.end_wf());
            old(self).lemma_wf_with_end(self);
            if self.end_state() is None {
                assert forall|t: int, k2: usize| 0 <= t < ends@.len() implies !#[trigger] self.has_cost(
                    ends@[t],
                    k2,
                ) by {
                    if self.has_cost(ends@[t], k2) {
                        assert(old(self).has_cost(ends@[t], k2));
                    }
                }
            }
        }
        true
    }
}

} // verus!
