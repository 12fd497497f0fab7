use vstd::prelude::*;
use crate::color::Color;
use crate::keycomb::{bit_at, comb_bits, comb_equal, keycomb_eq, lemma_comb_equal_symmetric, KeyComb};
use crate::maze::Maze;
use crate::region::lemma_distinct_in_range;

verus! {

/// A color as one number.
pub open spec fn color_code(c: Color) -> int {
    c.r * 65536 + c.g * 256 + c.b
}

/// There are `0x1000000` colors, so a list of distinct colors is no longer.
pub proof fn lemma_distinct_colors(keys: Seq<Color>)
    requires
        keys.no_duplicates(),
    ensures
        keys.len() <= 0x1000000,
{
    let codes = Seq::new(keys.len(), |i: int| color_code(keys[i]));
    assert forall|i: int, j: int|
        0 <= i < codes.len() && 0 <= j < codes.len() && i != j implies codes[i] != codes[j] by {
        assert(keys[i] != keys[j]);
    }
    lemma_distinct_in_range(codes, 0x1000000);
}

/// In a list without repetitions, a color's place is the only place where it
/// stands.
pub proof fn lemma_index_of_unique(keys: Seq<Color>, color: Color, p: int)
    requires
        keys.no_duplicates(),
        0 <= p < keys.len(),
        keys[p] == color,
    ensures
        keys.contains(color),
        keys.index_of(color) == p,
{
}

impl Maze {
    /// Whether two mazes differ at most in their registries of keys.
    pub open(crate) spec fn same_but_registry(&self, other: &Maze) -> bool {
        &&& self.board() == other.board()
        &&& self.kinds() == other.kinds()
        &&& self.costs() == other.costs()
        &&& self.pool() == other.pool()
        &&& self.end_state() == other.end_state()
        &&& self.key_size() == other.key_size()
    }

    /// Whether two mazes differ at most in their pools of combinations.
    pub open(crate) spec fn same_but_pool(&self, other: &Maze) -> bool {
        &&& self.board() == other.board()
        &&& self.kinds() == other.kinds()
        &&& self.costs() == other.costs()
        &&& self.registry() == other.registry()
        &&& self.end_state() == other.end_state()
        &&& self.key_size() == other.key_size()
    }

    /// The bit of a key color, or `None` for a color that is not registered.
    pub fn key_index(&self, color: &Color) -> (r: Option<u32>)
        requires
            self.registry_wf(),
        ensures
            r is Some <==> self.registry().contains(*color),
            r matches Some(p) ==> p == self.key_bit(*color) && p < self.registry().len()
                && self.registry()[p as int] == *color,
    {
        proof {
            lemma_distinct_colors(self.registry());
        }
        let mut i: usize = 0;
        while i < self.keys.len()
            invariant
                i <= self.keys@.len(),
                self.keys@.len() <= 0x1000000,
                self.registry_wf(),
                forall|j: int| 0 <= j < i ==> self.keys@[j] != *color,
            decreases self.keys@.len() - i,
        {
            if self.keys[i] == *color {
                proof {
                    lemma_index_of_unique(self.registry(), *color, i as int);
                }
                return Some(i as u32);
            }
            i = i + 1;
        }
        None
    }

    /// The bit of a key color; a color that is not registered yet gets the
    /// next free bit.
    pub(crate) fn key_position(&mut self, color: Color) -> (pos: u32)
        requires
            old(self).registry_wf(),
        ensures
            final(self).same_but_registry(old(self)),
            final(self).registry_wf(),
            final(self).registry() == (if old(self).registry().contains(color) {
                old(self).registry()
            } else {
                old(self).registry().push(color)
            }),
            final(self).registry().contains(color),
            pos == final(self).key_bit(color),
            pos < final(self).registry().len(),
            final(self).registry()[pos as int] == color,
            forall|c: Color| #[trigger]
                old(self).registry().contains(c) ==> final(self).registry().contains(c)
                    && final(self).key_bit(c) == old(self).key_bit(c),
    {
        match self.key_index(&color) {
            Some(pos) => pos,
            None => {
                proof {
                    lemma_distinct_colors(self.registry());
                }
                let len = self.keys.len();
                self.keys.push(color);
                proof {
                    let keys = self.registry();
                    assert(keys[len as int] == color);
                    assert(keys.no_duplicates()) by {
                        assert forall|i: int, j: int|
                            0 <= i < keys.len() && 0 <= j < keys.len() && i != j implies keys[i]
                            != keys[j] by {
                            if i < len {
                                assert(keys[i] == old(self).registry()[i]);
                            }
                            if j < len {
                                assert(keys[j] == old(self).registry()[j]);
                            }
                        }
                    }
                    lemma_index_of_unique(keys, color, len as int);
                    assert forall|c: Color| #[trigger] old(self).registry().contains(c) implies keys.contains(
                        c,
                    ) && self.key_bit(c) == old(self).key_bit(c) by {
                        let p = old(self).registry().index_of(c);
                        assert(keys[p] == c);
                        lemma_index_of_unique(keys, c, p);
                    }
                    assert(self.costs() =~= old(self).costs());
                    assert(self.kinds() =~= old(self).kinds());
                    assert(self.board().colors =~= old(self).board().colors);
                    assert(self.pool() =~= old(self).pool());
                }
                len as u32
            },
        }
    }

    /// The number under which the pool holds a combination, whatever its
    /// length, or `None` for a combination that the pool does not hold.
    pub fn find_comb(&self, comb: &KeyComb) -> (r: Option<usize>)
        ensures
            r matches Some(k) ==> k < self.pool().len() && comb_equal(
                self.pool()[k as int],
                comb_bits(*comb),
            ),
            r is None ==> forall|i: int|
                0 <= i < self.pool().len() ==> !comb_equal(#[trigger] self.pool()[i], comb_bits(*comb)),
    {
        let mut i: usize = 0;
        while i < self.key_combs.len()
            invariant
                i <= self.key_combs@.len(),
                forall|j: int| 0 <= j < i ==> !comb_equal(#[trigger] self.pool()[j], comb_bits(*comb)),
            decreases self.key_combs@.len() - i,
        {
            if keycomb_eq(&self.key_combs[i], comb) {
                assert(comb_equal(self.pool()[i as int], comb_bits(*comb)));
                return Some(i);
            }
            i = i + 1;
        }
        None
    }

    /// The number under which the pool holds a combination; a combination that
    /// the pool does not hold yet, whatever its length, is added to it.
    pub(crate) fn intern(&mut self, comb: KeyComb) -> (k: usize)
        requires
            old(self).pool_wf(),
            forall|q: int| q >= old(self).registry().len() ==> !#[trigger] bit_at(comb_bits(comb), q),
        ensures
            final(self).same_but_pool(old(self)),
            final(self).pool_wf(),
            k < final(self).pool().len(),
            comb_equal(final(self).pool()[k as int], comb_bits(comb)),
            final(self).pool() == (if exists|i: int|
                0 <= i < old(self).pool().len() && comb_equal(
                    #[trigger] old(self).pool()[i],
                    comb_bits(comb),
                ) {
                old(self).pool()
            } else {
                old(self).pool().push(comb_bits(comb))
            }),
    {
        let mut i: usize = 0;
        while i < self.key_combs.len()
            invariant
                i <= self.key_combs@.len(),
                *self == *old(self),
                self.pool_wf(),
                forall|j: int| 0 <= j < i ==> !comb_equal(#[trigger] self.pool()[j], comb_bits(comb)),
            decreases self.key_combs@.len() - i,
        {
            if keycomb_eq(&self.key_combs[i], &comb) {
                assert(comb_equal(self.pool()[i as int], comb_bits(comb)));
                return i;
            }
            i = i + 1;
        }
        let ghost len = self.key_combs@.len();
        let ghost bits = comb_bits(comb);
        self.key_combs.push(comb);
        let count = self.key_combs.len();
        proof {
            let pool = self.pool();
            let before = old(self).pool();
            assert(pool =~= before.push(bits));
            assert forall|i: int, j: int|
                0 <= i < pool.len() && 0 <= j < pool.len() && i != j implies !comb_equal(
                #[trigger] pool[i],
                #[trigger] pool[j],
            ) by {
                if i < len && j < len {
                    assert(pool[i] == before[i] && pool[j] == before[j]);
                } else if i < len {
                    assert(pool[i] == before[i]);
                } else {
                    assert(pool[j] == before[j]);
                    lemma_comb_equal_symmetric(pool[i], pool[j]);
                }
            }
            assert forall|i: int, q: int|
                0 <= i < pool.len() && q >= self.registry().len() implies !#[trigger] bit_at(
                pool[i],
                q,
            ) by {
                if i < len {
                    assert(pool[i] == before[i]);
                }
            }
            assert(pool[0] == before[0]);
            assert(self.costs() =~= old(self).costs());
            assert(self.kinds() =~= old(self).kinds());
            assert(self.board().colors =~= old(self).board().colors);
            assert(comb_equal(pool[len as int], bits));
        }
        count - 1
    }
}

} // verus!
