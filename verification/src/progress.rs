use vstd::prelude::*;
use crate::cell::PixelType;
use crate::color::Color;
use crate::coord::{neighbor, Coord};
use crate::keycomb::{bit_at, comb_equal, with_bit};
use crate::maze::Maze;
use crate::registry::lemma_index_of_unique;

verus! {

impl Maze {
    /// Whether `next` can come after `self` in a search: the grid is the same,
    /// a classified cell has kept its kind, the registry and the pool have
    /// only grown at their ends, and every recorded cost is still recorded and
    /// has not risen.
    #[verifier::opaque]
    pub open(crate) spec fn advances_to(&self, next: &Maze) -> bool {
        &&& next.board() == self.board()
        &&& next.key_size() == self.key_size()
        &&& forall|c: Coord| #[trigger]
            self.valid(c) && self.kind_at(c) != PixelType::UNSET ==> next.kind_at(c) == self.kind_at(c)
        &&& self.registry().len() <= next.registry().len()
        &&& forall|q: int|
            0 <= q < self.registry().len() ==> #[trigger] next.registry()[q] == self.registry()[q]
        &&& self.pool().len() <= next.pool().len()
        &&& forall|i: int| 0 <= i < self.pool().len() ==> #[trigger] next.pool()[i] == self.pool()[i]
        &&& forall|c: Coord, k: usize| #[trigger]
            self.has_cost(c, k) ==> next.has_cost(c, k) && next.cost(c, k) <= self.cost(c, k)
    }

    /// What the invariant says of a recorded cost.
    pub proof fn lemma_cost_facts(&self, c: Coord, k: usize)
        requires
            self.wf(),
            self.has_cost(c, k),
        ensures
            k < self.pool().len(),
            self.cost(c, k) < crate::maze::MAX_DIST,
            self.kind_at(c) != PixelType::UNSET,
            self.kind_at(c) != PixelType::WALL,
    {
        reveal(Maze::wf);
    }

    /// The origin stays the origin while the search goes on.
    pub proof fn lemma_origin_kept(&self, next: &Maze, start: Coord)
        requires
            self.advances_to(next),
            self.valid(start),
            self.kind_at(start) == PixelType::START,
            self.has_cost(start, 0),
            self.cost(start, 0) == 0,
        ensures
            next.valid(start),
            next.kind_at(start) == PixelType::START,
            next.has_cost(start, 0),
            next.cost(start, 0) == 0,
    {
        reveal(Maze::advances_to);
    }

    /// The grid and the key size stay while the search goes on.
    pub proof fn lemma_advances_frame(&self, next: &Maze)
        requires
            self.advances_to(next),
        ensures
            next.board() == self.board(),
            next.key_size() == self.key_size(),
    {
        reveal(Maze::advances_to);
    }

    /// A recorded cost stays recorded while the search goes on.
    pub proof fn lemma_cost_still(&self, next: &Maze, c: Coord, k: usize)
        requires
            self.advances_to(next),
            self.has_cost(c, k),
        ensures
            next.has_cost(c, k),
            next.board() == self.board(),
    {
        reveal(Maze::advances_to);
    }

    /// A maze can come after itself.
    pub proof fn lemma_advances_refl(&self)
        ensures
            self.advances_to(self),
    {
        reveal(Maze::advances_to);
    }

    /// What can come after what can come after a maze can come after it.
    pub proof fn lemma_advances_trans(&self, mid: &Maze, next: &Maze)
        requires
            self.advances_to(mid),
            mid.advances_to(next),
        ensures
            self.advances_to(next),
    {
        reveal(Maze::advances_to);
        assert forall|c: Coord| #[trigger]
            self.valid(c) && self.kind_at(c) != PixelType::UNSET implies next.kind_at(c) == self.kind_at(
            c,
        ) by {
            assert(mid.valid(c));
        }
        assert forall|q: int| 0 <= q < self.registry().len() implies #[trigger] next.registry()[q]
            == self.registry()[q] by {
            assert(mid.registry()[q] == self.registry()[q]);
        }
        assert forall|i: int| 0 <= i < self.pool().len() implies #[trigger] next.pool()[i]
            == self.pool()[i] by {
            assert(mid.pool()[i] == self.pool()[i]);
        }
        assert forall|c: Coord, k: usize| #[trigger] self.has_cost(c, k) implies next.has_cost(c, k)
            && next.cost(c, k) <= self.cost(c, k) by {
            assert(mid.has_cost(c, k));
        }
    }

    /// Whether the two mazes have the same registry, pool, kinds and grid, so
    /// that they allow the same steps.
    pub open(crate) spec fn same_but_costs(&self, other: &Maze) -> bool {
        &&& self.board() == other.board()
        &&& self.kinds() == other.kinds()
        &&& self.registry() == other.registry()
        &&& self.pool() == other.pool()
        &&& self.end_state() == other.end_state()
        &&& self.key_size() == other.key_size()
    }

    /// The invariant on kinds speaks of the grid, the key size and the kinds
    /// alone.
    pub proof fn lemma_kinds_wf_same(&self, next: &Maze)
        requires
            self.kinds_wf(),
            next.board() == self.board(),
            next.kinds() == self.kinds(),
            next.key_size() == self.key_size(),
        ensures
            next.kinds_wf(),
    {
        assert forall|c: Coord| #[trigger] next.valid(c) implies next.kind_at(c) == PixelType::UNSET
            || next.kind_at(c) == crate::region::cell_kind(
            next.board(),
            next.key_size().0,
            next.key_size().1,
            c,
        ) by {
            assert(self.valid(c));
        }
        assert forall|c: Coord, i: int|
            next.valid(c) && 0 <= i < 4 && next.valid(#[trigger] neighbor(c, i)) && next.color_at(
                neighbor(c, i),
            ) == next.color_at(c) && !crate::color::grey(next.color_at(c)) implies (next.kind_at(c)
            == PixelType::UNSET <==> next.kind_at(neighbor(c, i)) == PixelType::UNSET) by {
            assert(self.valid(c) && self.valid(neighbor(c, i)));
        }
    }

    /// Classifying cells that were unclassified keeps the invariant.
    pub proof fn lemma_classified_keeps_wf(&self, next: &Maze)
        requires
            self.wf(),
            next.grid_wf(),
            next.kinds_wf(),
            next.same_but_kinds(self),
            forall|c: Coord| #[trigger]
                self.valid(c) && self.kind_at(c) != PixelType::UNSET ==> next.kind_at(c)
                    == self.kind_at(c),
        ensures
            next.wf(),
            self.advances_to(next),
    {
        reveal(Maze::wf);
        assert(self.advances_to(next)) by {
            reveal(Maze::advances_to);
        }
        self.lemma_costs_wf_stays(next);
        self.lemma_end_wf_stays(next);
    }

    /// The invariant on the end state survives a step of the search.
    pub proof fn lemma_end_wf_stays(&self, next: &Maze)
        requires
            self.end_wf(),
            self.costs_wf(),
            self.advances_to(next),
            next.end_state() == self.end_state(),
        ensures
            next.end_wf(),
    {
        reveal(Maze::advances_to);
        if let Some((e, k)) = self.end {
            assert(self.has_cost(e, k));
            assert(self.valid(e));
        }
    }

    /// A registered color keeps its bit while the search goes on.
    pub proof fn lemma_bit_stays(&self, next: &Maze, color: Color)
        requires
            self.advances_to(next),
            next.registry_wf(),
            self.registry().contains(color),
        ensures
            next.registry().contains(color),
            next.key_bit(color) == self.key_bit(color),
            0 <= self.key_bit(color) < self.registry().len(),
    {
        reveal(Maze::advances_to);
        let p = self.registry().index_of(color);
        assert(next.registry()[p] == self.registry()[p]);
        lemma_index_of_unique(next.registry(), color, p);
    }

    /// Between combinations that the pool held already, a classified cell
    /// allows the same steps later as now.
    pub proof fn lemma_carries_stay(&self, next: &Maze, k0: usize, c: Coord, k: usize)
        requires
            self.advances_to(next),
            self.pool_wf(),
            next.registry_wf(),
            self.valid(c),
            self.kind_at(c) != PixelType::UNSET,
            k0 < self.pool().len(),
            k < self.pool().len(),
        ensures
            next.carries(k0, c, k) == self.carries(k0, c, k),
    {
        reveal(Maze::advances_to);
        let color = self.color_at(c);
        assert(next.kind_at(c) == self.kind_at(c));
        assert(next.pool()[k0 as int] == self.pool()[k0 as int]);
        assert(next.pool()[k as int] == self.pool()[k as int]);
        if self.registry().contains(color) {
            self.lemma_bit_stays(next, color);
        } else if next.registry().contains(color) {
            let q = next.key_bit(color);
            assert(0 <= q < next.registry().len() && next.registry()[q] == color);
            if q < self.registry().len() {
                assert(self.registry()[q] == next.registry()[q]);
                assert(false);
            }
            assert(!bit_at(self.pool()[k as int], q));
            assert(!bit_at(self.pool()[k0 as int], q));
            if comb_equal(self.pool()[k as int], with_bit(self.pool()[k0 as int], q as nat)) {
                assert(bit_at(with_bit(self.pool()[k0 as int], q as nat), q));
                assert(bit_at(self.pool()[k as int], q) == bit_at(
                    with_bit(self.pool()[k0 as int], q as nat),
                    q,
                ));
            }
        }
    }

    /// The invariant on costs survives a step of the search in which every
    /// recorded cost either stayed as it was or got a neighbor, combination
    /// and cost that it comes from.
    pub proof fn lemma_costs_wf_stays(&self, next: &Maze)
        requires
            self.wf(),
            self.advances_to(next),
            next.registry_wf(),
            next.pool_wf(),
            forall|c: Coord, k: usize| #[trigger]
                next.has_cost(c, k) ==> (self.has_cost(c, k) && next.cost(c, k) == self.cost(c, k)) || (
                k < next.pool().len() && next.cost(c, k) < crate::maze::MAX_DIST && next.kind_at(c)
                    != PixelType::UNSET && next.kind_at(c) != PixelType::WALL && (next.is_origin(c, k)
                    || exists|i: int, k0: usize| #[trigger] next.comes_from(c, k, i, k0))),
        ensures
            next.costs_wf(),
    {
        reveal(Maze::wf);
        reveal(Maze::advances_to);
        reveal(Maze::comes_from);
        assert forall|c: Coord, k: usize| #[trigger] next.has_cost(c, k) implies {
            &&& k < next.pool().len()
            &&& next.cost(c, k) < crate::maze::MAX_DIST
            &&& next.kind_at(c) != PixelType::UNSET
            &&& next.kind_at(c) != PixelType::WALL
            &&& (next.is_origin(c, k) || exists|i: int, k0: usize| #[trigger]
                next.comes_from(c, k, i, k0))
        } by {
            if self.has_cost(c, k) && next.cost(c, k) == self.cost(c, k) {
                assert(self.valid(c));
                if !self.is_origin(c, k) {
                    let (i, k0) = choose|i: int, k0: usize| #[trigger] self.comes_from(c, k, i, k0);
                    let n = neighbor(c, i);
                    assert(self.has_cost(n, k0));
                    assert(next.has_cost(n, k0) && next.cost(n, k0) <= self.cost(n, k0));
                    self.lemma_carries_stay(next, k0, c, k);
                    assert(next.comes_from(c, k, i, k0));
                }
            }
        }
    }
}

} // verus!
