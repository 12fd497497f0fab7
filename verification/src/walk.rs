use vstd::prelude::*;
use crate::board::{first_start, Board};
use crate::cell::PixelType;
use crate::color::{end_color, lemma_weight_positive, step_weight, Color};
use crate::coord::{adjacent, lemma_neighbor_adjacent, lemma_neighbor_back, neighbor, Coord};
use crate::keycomb::{bit_at, comb_equal, lemma_bit_after, with_bit, zeros};
use crate::maze::{Maze, MAX_DIST};
use crate::region::{cell_kind, is_trail};
use crate::registry::lemma_index_of_unique;

verus! {

/// Someone who walks through the maze: where they stand and the colors of the
/// keys they hold.
pub struct Walker {
    pub at: Coord,
    pub keys: Set<Color>,
}

/// Whether the walker `s` may step to become the walker `t`: onto a cell of
/// the grid one step away that is no wall; a key cell adds its color to the
/// keys held, a zone asks for the key of its color, and nothing else changes
/// the keys.
pub open spec fn may_step(b: Board, key_size: (nat, nat), s: Walker, t: Walker) -> bool {
    &&& b.valid(t.at)
    &&& adjacent(s.at, t.at)
    &&& match cell_kind(b, key_size.0, key_size.1, t.at) {
        PixelType::WALL => false,
        PixelType::UNSET => false,
        PixelType::KEY => t.keys == s.keys.insert(b.color(t.at)),
        PixelType::ZONE => s.keys.contains(b.color(t.at)) && t.keys == s.keys,
        _ => t.keys == s.keys,
    }
}

/// Whether `w` is a walk: it starts on the first cell of the start color
/// without keys, and goes on by steps that are allowed.
pub open spec fn is_walk(b: Board, key_size: (nat, nat), w: Seq<Walker>) -> bool {
    &&& w.len() >= 1
    &&& first_start(b, w[0].at)
    &&& w[0].keys == Set::<Color>::empty()
    &&& forall|i: int| 0 <= i < w.len() - 1 ==> may_step(b, key_size, #[trigger] w[i], w[i + 1])
}

/// What a walk costs: the weights of the cells stepped onto.
pub open spec fn walk_cost(b: Board, w: Seq<Walker>) -> nat
    decreases w.len(),
{
    if w.len() <= 1 {
        0
    } else {
        walk_cost(b, w.drop_last()) + step_weight(b.color(w.last().at))
    }
}

/// Whether some walk ends on the cell `c`.
pub open spec fn reachable(b: Board, key_size: (nat, nat), c: Coord) -> bool {
    exists|w: Seq<Walker>| #[trigger] is_walk(b, key_size, w) && w.last().at == c
}

/// Whether some walk that costs less than `bound` ends on the cell `c`.
pub open spec fn reachable_below(b: Board, key_size: (nat, nat), c: Coord, bound: int) -> bool {
    exists|w: Seq<Walker>|
        #[trigger] is_walk(b, key_size, w) && w.last().at == c && walk_cost(b, w) < bound
}

/// A walk without its last step is a walk that costs no more.
pub proof fn lemma_walk_shorter(b: Board, key_size: (nat, nat), w: Seq<Walker>)
    requires
        is_walk(b, key_size, w),
        w.len() >= 2,
    ensures
        is_walk(b, key_size, w.drop_last()),
        walk_cost(b, w.drop_last()) <= walk_cost(b, w),
        may_step(b, key_size, w.drop_last().last(), w.last()),
{
    let v = w.drop_last();
    assert(v[0] == w[0]);
    assert forall|i: int| 0 <= i < v.len() - 1 implies may_step(b, key_size, #[trigger] v[i], v[i + 1]) by {
        assert(v[i] == w[i] && v[i + 1] == w[i + 1]);
        assert(may_step(b, key_size, w[i], w[i + 1]));
    }
    assert(v.last() == w[w.len() - 2]);
    assert(may_step(b, key_size, w[w.len() - 2], w[w.len() - 2 + 1]));
}

/// A walk with one more step that is allowed is a walk, and costs the weight
/// of the cell stepped onto more.
pub proof fn lemma_walk_longer(b: Board, key_size: (nat, nat), w: Seq<Walker>, t: Walker)
    requires
        is_walk(b, key_size, w),
        may_step(b, key_size, w.last(), t),
    ensures
        is_walk(b, key_size, w.push(t)),
        walk_cost(b, w.push(t)) == walk_cost(b, w) + step_weight(b.color(t.at)),
{
    let v = w.push(t);
    assert(v[0] == w[0]);
    assert forall|i: int| 0 <= i < v.len() - 1 implies may_step(b, key_size, #[trigger] v[i], v[i + 1]) by {
        if i < w.len() - 1 {
            assert(v[i] == w[i] && v[i + 1] == w[i + 1]);
            assert(may_step(b, key_size, w[i], w[i + 1]));
        } else {
            assert(v[i] == w.last() && v[i + 1] == t);
        }
    }
    assert(v.drop_last() =~= w);
}

/// A walker who stands on a cell of the end color can walk on over cells of
/// that color, at the cost of one for each step and with the same keys.
pub proof fn lemma_walk_along(b: Board, key_size: (nat, nat), w: Seq<Walker>, p: Seq<Coord>) -> (v: Seq<
    Walker,
>)
    requires
        is_walk(b, key_size, w),
        is_trail(b, p),
        p[0] == w.last().at,
        b.color(p[0]) == end_color(),
    ensures
        is_walk(b, key_size, v),
        v.last() == (Walker { at: p.last(), keys: w.last().keys }),
        walk_cost(b, v) == walk_cost(b, w) + p.len() - 1,
    decreases p.len(),
{
    if p.len() == 1 {
        w
    } else {
        let short = p.drop_last();
        assert(short[0] == p[0]);
        assert forall|i: int| 0 <= i < short.len() implies b.valid(#[trigger] short[i]) && b.color(
            short[i],
        ) == b.color(short[0]) by {
            assert(short[i] == p[i]);
        }
        assert forall|i: int| 0 <= i < short.len() - 1 implies adjacent(#[trigger] short[i], short[i + 1]) by {
            assert(short[i] == p[i] && short[i + 1] == p[i + 1]);
            assert(adjacent(p[i], p[i + 1]));
        }
        let u = lemma_walk_along(b, key_size, w, short);
        let t = Walker { at: p.last(), keys: w.last().keys };
        assert(b.valid(p[p.len() - 1]));
        assert(short.last() == p[p.len() - 2]);
        assert(adjacent(p[p.len() - 2], p[p.len() - 2 + 1]));
        assert(cell_kind(b, key_size.0, key_size.1, p.last()) == PixelType::END);
        lemma_walk_longer(b, key_size, u, t);
        let v = u.push(t);
        assert(v.last() == t);
        v
    }
}

/// Whoever may take a step pays at least one for it.
pub proof fn lemma_step_costs(b: Board, key_size: (nat, nat), s: Walker, t: Walker)
    requires
        may_step(b, key_size, s, t),
    ensures
        step_weight(b.color(t.at)) >= 1,
{
    lemma_weight_positive(b.color(t.at));
}

/// The grid has at most one first cell of the start color.
pub proof fn lemma_first_start_unique(b: Board, s: Coord, t: Coord)
    requires
        first_start(b, s),
        first_start(b, t),
    ensures
        s == t,
{
    if s != t {
        if crate::board::comes_before(s, t) {
            assert(b.color(s) != crate::color::start_color());
        } else {
            assert(crate::board::comes_before(t, s));
            assert(b.color(t) != crate::color::start_color());
        }
    }
}

impl Maze {
    /// The colors of the keys that the combination with number `k` holds.
    pub open(crate) spec fn held(&self, k: usize) -> Set<Color> {
        Set::new(
            |color: Color|
                self.registry().contains(color) && bit_at(self.pool()[k as int], self.key_bit(color)),
        )
    }

    /// Whether the search has recorded its origin: the first cell of the start
    /// color, reached without keys at no cost.
    pub open(crate) spec fn has_origin(&self) -> bool {
        exists|s: Coord| #[trigger] first_start(self.board(), s) && self.has_cost(s, 0) && self.cost(s, 0) == 0
    }

    /// The combination with a key's bit set holds that key's color besides
    /// what it held.
    pub proof fn lemma_held_with_key(&self, k0: usize, k: usize, color: Color)
        requires
            self.registry_wf(),
            self.registry().contains(color),
            comb_equal(self.pool()[k as int], with_bit(self.pool()[k0 as int], self.key_bit(color) as nat)),
        ensures
            self.held(k) == self.held(k0).insert(color),
    {
        let q = self.key_bit(color);
        let keys = self.registry();
        assert(0 <= q < keys.len() && keys[q] == color);
        assert forall|c: Color| self.held(k).contains(c) == self.held(k0).insert(color).contains(c) by {
            if keys.contains(c) {
                let p = self.key_bit(c);
                assert(0 <= p < keys.len() && keys[p] == c);
                lemma_bit_after(self.pool()[k0 as int], q as nat, p);
                assert(bit_at(self.pool()[k as int], p) == bit_at(
                    with_bit(self.pool()[k0 as int], q as nat),
                    p,
                ));
            }
        }
        assert(self.held(k) =~= self.held(k0).insert(color));
    }

    /// A step that the maze allows between two combinations of the pool is a
    /// step that a walker may take.
    pub proof fn lemma_carries_is_step(&self, p: Coord, k0: usize, i: int, k: usize)
        requires
            self.wf(),
            self.valid(p),
            0 <= i < 4,
            self.valid(neighbor(p, i)),
            self.kind_at(neighbor(p, i)) != PixelType::UNSET,
            self.carries(k0, neighbor(p, i), k),
        ensures
            may_step(
                self.board(),
                self.key_size(),
                Walker { at: p, keys: self.held(k0) },
                Walker { at: neighbor(p, i), keys: self.held(k) },
            ),
    {
        reveal(Maze::wf);
        let n = neighbor(p, i);
        lemma_neighbor_adjacent(p);
        assert(self.kind_at(n) == cell_kind(self.board(), self.key_size().0, self.key_size().1, n));
        if self.kind_at(n) == PixelType::KEY {
            self.lemma_held_with_key(k0, k, self.color_at(n));
        }
    }

    /// Combinations of the pool that hold the same keys are one combination.
    pub proof fn lemma_held_unique(&self, k1: usize, k2: usize)
        requires
            self.wf(),
            k1 < self.pool().len(),
            k2 < self.pool().len(),
            self.held(k1) == self.held(k2),
        ensures
            k1 == k2,
    {
        reveal(Maze::wf);
        let keys = self.registry();
        assert forall|i: int| #[trigger] bit_at(self.pool()[k1 as int], i) == bit_at(
            self.pool()[k2 as int],
            i,
        ) by {
            if 0 <= i < keys.len() {
                let c = keys[i];
                lemma_index_of_unique(keys, c, i);
                assert(self.held(k1).contains(c) == bit_at(self.pool()[k1 as int], i));
                assert(self.held(k2).contains(c) == bit_at(self.pool()[k2 as int], i));
            } else if i >= keys.len() {
                assert(!bit_at(self.pool()[k1 as int], i));
                assert(!bit_at(self.pool()[k2 as int], i));
            }
        }
    }

    /// The first combination of the pool holds no key.
    pub proof fn lemma_first_holds_nothing(&self)
        requires
            self.wf(),
        ensures
            self.held(0) == Set::<Color>::empty(),
    {
        reveal(Maze::wf);
        assert(self.pool()[0] == zeros(8));
        assert(self.held(0) =~= Set::<Color>::empty());
    }

    /// Every recorded cost is the cost of a walk, or more: some walk ends on
    /// the cell with the keys of the combination and costs no more than what
    /// is recorded.
    pub proof fn lemma_cost_has_walk(&self, c: Coord, k: usize) -> (w: Seq<Walker>)
        requires
            self.wf(),
            self.has_cost(c, k),
        ensures
            is_walk(self.board(), self.key_size(), w),
            w.last() == (Walker { at: c, keys: self.held(k) }),
            walk_cost(self.board(), w) <= self.cost(c, k),
        decreases self.cost(c, k),
    {
        let b = self.board();
        self.lemma_wf_parts();
        if self.is_origin(c, k) {
            self.lemma_first_holds_nothing();
            let w = seq![Walker { at: c, keys: self.held(k) }];
            assert(w[0].keys == Set::<Color>::empty());
            w
        } else {
            let (i, k0) = choose|i: int, k0: usize| #[trigger] self.comes_from(c, k, i, k0);
            reveal(Maze::comes_from);
            let p = neighbor(c, i);
            assert(self.valid(c));
            assert(self.kind_at(c) == cell_kind(b, self.key_size().0, self.key_size().1, c));
            lemma_weight_positive(self.color_at(c));
            let v = self.lemma_cost_has_walk(p, k0);
            lemma_neighbor_back(c, i);
            self.lemma_carries_is_step(p, k0, 3 - i, k);
            let t = Walker { at: c, keys: self.held(k) };
            lemma_walk_longer(b, self.key_size(), v, t);
            let w = v.push(t);
            assert(w.last() == t);
            w
        }
    }

    /// After a search, every walk that costs less than `MAX_DIST` ends on a
    /// recorded state: the cell has a cost for the combination that holds the
    /// walker's keys, and the cost is no more than the walk's.
    pub proof fn lemma_walk_has_cost(&self, w: Seq<Walker>) -> (k: usize)
        requires
            self.wf(),
            self.settled(),
            self.has_origin(),
            is_walk(self.board(), self.key_size(), w),
            walk_cost(self.board(), w) < MAX_DIST,
        ensures
            self.has_cost(w.last().at, k),
            self.held(k) == w.last().keys,
            self.cost(w.last().at, k) <= walk_cost(self.board(), w),
        decreases w.len(),
    {
        let b = self.board();
        if w.len() == 1 {
            let s = choose|s: Coord| #[trigger] first_start(b, s) && self.has_cost(s, 0) && self.cost(s, 0) == 0;
            lemma_first_start_unique(b, s, w[0].at);
            self.lemma_first_holds_nothing();
            0
        } else {
            let v = w.drop_last();
            lemma_walk_shorter(b, self.key_size(), w);
            let k0 = self.lemma_walk_has_cost(v);
            let p = v.last().at;
            let t = w.last();
            let n = t.at;
            assert(self.valid(p));
            lemma_neighbor_adjacent(p);
            let i = choose|i: int| 0 <= i < 4 && neighbor(p, i) == n;
            reveal(Maze::settled);
            assert(self.relaxed_upto(p, k0, 4));
            assert(self.edge_relaxed(p, k0, i));
            self.lemma_wf_parts();
            self.lemma_cost_facts(p, k0);
            assert(self.valid(n));
            assert(self.kind_at(n) == cell_kind(b, self.key_size().0, self.key_size().1, n));
            let d = self.cost(p, k0) + step_weight(self.color_at(n));
            assert(d <= walk_cost(b, w));
            if self.kind_at(n) == PixelType::KEY {
                let k2 = choose|k2: usize| k2 < self.pool().len() && #[trigger] self.carries(k0, n, k2);
                self.lemma_held_with_key(k0, k2, self.color_at(n));
                assert(self.reaches(n, k2, d));
                k2
            } else {
                assert(self.carries(k0, n, k0));
                assert(self.reaches(n, k0, d));
                k0
            }
        }
    }

    /// After a search, every recorded cost is the lowest cost at which a walk
    /// reaches the cell with the keys of the combination: no walk that ends
    /// there with those keys costs less.
    pub proof fn lemma_cost_is_lowest(&self, c: Coord, k: usize, w: Seq<Walker>)
        requires
            self.wf(),
            self.settled(),
            self.has_origin(),
            self.has_cost(c, k),
            is_walk(self.board(), self.key_size(), w),
            w.last() == (Walker { at: c, keys: self.held(k) }),
        ensures
            self.cost(c, k) <= walk_cost(self.board(), w),
    {
        self.lemma_cost_facts(c, k);
        if walk_cost(self.board(), w) < MAX_DIST {
            let k2 = self.lemma_walk_has_cost(w);
            self.lemma_cost_facts(c, k2);
            self.lemma_held_unique(k, k2);
        }
    }

    /// After a search, every recorded cost is exactly what the cheapest walk
    /// to the cell with the keys of the combination costs: some walk costs
    /// just that, and none costs less.
    pub proof fn lemma_cost_is_exact(&self, c: Coord, k: usize) -> (w: Seq<Walker>)
        requires
            self.wf(),
            self.settled(),
            self.has_origin(),
            self.has_cost(c, k),
        ensures
            is_walk(self.board(), self.key_size(), w),
            w.last() == (Walker { at: c, keys: self.held(k) }),
            walk_cost(self.board(), w) == self.cost(c, k),
            forall|v: Seq<Walker>|
                #[trigger] is_walk(self.board(), self.key_size(), v) && v.last() == w.last()
                    ==> self.cost(c, k) <= walk_cost(self.board(), v),
    {
        let w = self.lemma_cost_has_walk(c, k);
        self.lemma_cost_is_lowest(c, k, w);
        assert forall|v: Seq<Walker>|
            #[trigger] is_walk(self.board(), self.key_size(), v) && v.last() == w.last() implies self.cost(
            c,
            k,
        ) <= walk_cost(self.board(), v) by {
            self.lemma_cost_is_lowest(c, k, v);
        }
        w
    }
}

} // verus!
