use vstd::prelude::*;
use bmp::Image;
use crate::board::lemma_index_bounds;
use crate::cell::PixelType;
use crate::color::{lemma_weight_positive, path_color, Color};
use crate::coord::{adjacent, direction, lemma_neighbor_adjacent, lemma_neighbor_back, neighbor, Coord};
use crate::error::{MazeError, MazeErrorKind, MazeResult};
use crate::image::{image_height, image_new, image_pixel, image_set_pixel, image_width};
use crate::keycomb::{
    bit_at,
    comb_equal,
    keycomb_eq,
    keycomb_unset,
    lemma_comb_equal_symmetric,
    lemma_comb_equal_transitive,
    lemma_set_is_noop,
    start_key_comb,
    with_bit,
    without_bit,
    zeros,
};
use crate::maze::{Maze, MAX_DIST};

verus! {

impl Maze {
    /// The cheapest of the first `n` neighbors of cell `c` that are cheaper to
    /// reach with combination `k` than `bound`, with its cost; the cell itself
    /// with `bound` if there is none. Among equally cheap neighbors the first
    /// one wins.
    pub open(crate) spec fn lowest(&self, c: Coord, k: usize, bound: int, n: int) -> (Coord, int)
        decreases n,
    {
        if n <= 0 {
            (c, bound)
        } else {
            let (p, d) = self.lowest(c, k, bound, n - 1);
            let nb = neighbor(c, n - 1);
            if self.has_cost(nb, k) && self.cost(nb, k) < d {
                (nb, self.cost(nb, k))
            } else {
                (p, d)
            }
        }
    }

    /// The combination of the pool that is combination `k` without the key of
    /// cell `c`.
    pub open(crate) spec fn reduced(&self, c: Coord, k: usize) -> usize {
        choose|k0: usize|
            k0 < self.pool().len() && comb_equal(
                #[trigger] self.pool()[k0 as int],
                without_bit(self.pool()[k as int], self.key_bit(self.color_at(c)) as nat),
            )
    }

    /// The state before a state on its route: the cheapest neighbor that is
    /// cheaper to reach with the same combination; where there is none, the
    /// cell is a key that was just taken, and the state before is the cheapest
    /// neighbor with the combination without that key.
    pub open(crate) spec fn step_back(&self, c: Coord, k: usize) -> (Coord, usize) {
        let p = self.lowest(c, k, self.cost(c, k), 4).0;
        if p != c {
            (p, k)
        } else {
            (self.lowest(c, self.reduced(c, k), MAX_DIST as int, 4).0, self.reduced(c, k))
        }
    }

    /// Whether a state ends a route: a start cell reached without keys.
    pub open(crate) spec fn at_start(&self, c: Coord, k: usize) -> bool {
        self.kind_at(c) == PixelType::START && k == 0
    }

    /// Whether `states` is the route back from its first state: every state
    /// has a recorded cost, each is followed by the state before it, which is
    /// one step away and cheaper, and the last one, and no other, is a start
    /// cell reached without keys.
    pub open(crate) spec fn is_route(&self, states: Seq<(Coord, usize)>) -> bool {
        &&& states.len() >= 1
        &&& forall|i: int| 0 <= i < states.len() ==> self.has_cost((#[trigger] states[i]).0, states[i].1)
        &&& forall|i: int|
            0 <= i < states.len() - 1 ==> {
                &&& !self.at_start((#[trigger] states[i]).0, states[i].1)
                &&& states[i + 1] == self.step_back(states[i].0, states[i].1)
                &&& adjacent(states[i].0, states[i + 1].0)
                &&& self.cost(states[i + 1].0, states[i + 1].1) < self.cost(states[i].0, states[i].1)
            }
        &&& self.at_start(states.last().0, states.last().1)
    }

    /// What the scan of the neighbors finds: either nothing, and then no
    /// neighbor is cheaper than the bound, or a neighbor with a recorded cost
    /// below the bound that no other neighbor undercuts.
    pub proof fn lemma_lowest(&self, c: Coord, k: usize, bound: int, n: int)
        requires
            0 <= n <= 4,
        ensures
            ({
                let (p, d) = self.lowest(c, k, bound, n);
                &&& d <= bound
                &&& forall|i: int|
                    0 <= i < n && self.has_cost(#[trigger] neighbor(c, i), k) ==> d <= self.cost(
                        neighbor(c, i),
                        k,
                    )
                &&& p == c ==> d == bound
                &&& p != c ==> d < bound && self.has_cost(p, k) && self.cost(p, k) == d && exists|i: int|
                    0 <= i < n && #[trigger] neighbor(c, i) == p
            }),
        decreases n,
    {
        if n > 0 {
            self.lemma_lowest(c, k, bound, n - 1);
            lemma_neighbor_back(c, n - 1);
            let (p, d) = self.lowest(c, k, bound, n - 1);
            let nb = neighbor(c, n - 1);
            if self.has_cost(nb, k) && self.cost(nb, k) < d {
                assert(neighbor(c, n - 1) == nb);
            } else if p != c {
                let i = choose|i: int| 0 <= i < n - 1 && #[trigger] neighbor(c, i) == p;
                assert(0 <= i < n && neighbor(c, i) == p);
            }
        }
    }

    /// The cheapest neighbor of `curr` that is cheaper to reach with
    /// combination `k` than `bound`, with its cost; `curr` itself with `bound`
    /// if there is none.
    pub fn look_around(&self, curr: &Coord, k: usize, bound: u32) -> (r: (Coord, u32))
        requires
            self.grid_wf(),
        ensures
            (r.0, r.1 as int) == self.lowest(*curr, k, bound as int, 4),
    {
        let mut next: Coord = *curr;
        let mut min_dist: u32 = bound;
        let mut i: usize = 0;
        while i < 4
            invariant
                i <= 4,
                self.grid_wf(),
                (next, min_dist as int) == self.lowest(*curr, k, bound as int, i as int),
            decreases 4 - i,
        {
            let nb: Coord = *curr + direction(i);
            match self.pixel_indx(&nb) {
                Ok(nb_indx) => {
                    match self.cost_of(nb_indx, k) {
                        Some(nb_dist) => {
                            if nb_dist < min_dist {
                                next = nb;
                                min_dist = nb_dist;
                            }
                        },
                        None => {},
                    }
                },
                Err(_) => {},
            }
            proof {
                assert(nb == neighbor(*curr, i as int));
                reveal_with_fuel(Maze::lowest, 2);
            }
            i = i + 1;
        }
        (next, min_dist)
    }
}

impl Maze {
    /// In a pool without repetitions, equal combinations have one number.
    pub proof fn lemma_pool_unique(&self, k1: usize, k2: usize)
        requires
            self.pool_wf(),
            k1 < self.pool().len(),
            k2 < self.pool().len(),
            comb_equal(self.pool()[k1 as int], self.pool()[k2 as int]),
        ensures
            k1 == k2,
    {
    }

    /// Every recorded state but a start cell reached without keys has a state
    /// before it: one step away, recorded and cheaper. It is found with the
    /// same combination, or, on a key cell only, with the combination without
    /// that key, which the pool holds.
    pub proof fn lemma_step_back(&self, c: Coord, k: usize)
        requires
            self.wf(),
            self.has_cost(c, k),
            !self.at_start(c, k),
        ensures
            self.has_cost(self.step_back(c, k).0, self.step_back(c, k).1),
            self.cost(self.step_back(c, k).0, self.step_back(c, k).1) < self.cost(c, k),
            adjacent(c, self.step_back(c, k).0),
            self.lowest(c, k, self.cost(c, k), 4).0 == c ==> {
                &&& self.kind_at(c) == PixelType::KEY
                &&& self.registry().contains(self.color_at(c))
                &&& self.reduced(c, k) < self.pool().len()
                &&& comb_equal(
                    self.pool()[self.reduced(c, k) as int],
                    without_bit(self.pool()[k as int], self.key_bit(self.color_at(c)) as nat),
                )
                &&& self.lowest(c, self.reduced(c, k), MAX_DIST as int, 4).0 != c
            },
    {
        reveal(Maze::wf);
        reveal(Maze::comes_from);
        let bound = self.cost(c, k);
        assert(!self.is_origin(c, k));
        let (i, k0) = choose|i: int, k0: usize| #[trigger] self.comes_from(c, k, i, k0);
        let nbr = neighbor(c, i);
        assert(self.valid(c));
        assert(self.kind_at(c) == crate::region::cell_kind(
            self.board(),
            self.key_size().0,
            self.key_size().1,
            c,
        ));
        lemma_weight_positive(self.color_at(c));
        assert(self.cost(nbr, k0) < bound);
        assert(k0 < self.pool().len() && k < self.pool().len());
        lemma_neighbor_adjacent(c);
        self.lemma_lowest(c, k, bound, 4);
        let (p, d) = self.lowest(c, k, bound, 4);
        if p != c {
            assert(self.valid(p));
        } else {
            if k0 == k {
                assert(d <= self.cost(neighbor(c, i), k));
                assert(false);
            }
            assert(self.kind_at(c) == PixelType::KEY);
            let q = self.key_bit(self.color_at(c)) as nat;
            let mine = self.pool()[k as int];
            let before = self.pool()[k0 as int];
            assert(comb_equal(mine, with_bit(before, q)));
            if bit_at(before, q as int) {
                lemma_set_is_noop(before, q);
                lemma_comb_equal_transitive(mine, with_bit(before, q), before);
                self.lemma_pool_unique(k, k0);
            }
            crate::keycomb::lemma_unset_after_set(before, q);
            crate::keycomb::lemma_unset_both(mine, with_bit(before, q), q);
            lemma_comb_equal_transitive(
                without_bit(mine, q),
                without_bit(with_bit(before, q), q),
                before,
            );
            lemma_comb_equal_symmetric(without_bit(mine, q), before);
            assert(comb_equal(self.pool()[k0 as int], without_bit(mine, q)));
            let k1 = self.reduced(c, k);
            assert(k1 < self.pool().len() && comb_equal(
                self.pool()[k1 as int],
                without_bit(mine, q),
            ));
            lemma_comb_equal_transitive(self.pool()[k1 as int], without_bit(mine, q), before);
            self.lemma_pool_unique(k1, k0);
            self.lemma_lowest(c, k0, MAX_DIST as int, 4);
            let (p2, d2) = self.lowest(c, k0, MAX_DIST as int, 4);
            assert(d2 <= self.cost(neighbor(c, i), k0));
            assert(p2 != c);
            assert(self.valid(p2));
        }
    }

    /// The only combination of the pool that equals the empty one is the
    /// first.
    pub proof fn lemma_empty_is_first(&self, k: usize)
        requires
            self.wf(),
            k < self.pool().len(),
        ensures
            comb_equal(self.pool()[k as int], zeros(8)) <==> k == 0,
    {
        reveal(Maze::wf);
        if comb_equal(self.pool()[k as int], zeros(8)) {
            self.lemma_pool_unique(k, 0);
        }
    }

    /// The route from the end state back to the start: the cells from the end
    /// cell to a start cell, each one step from the one before. From every
    /// cell the route goes on to the cheapest neighbor that is cheaper to
    /// reach with the combination held; on a key cell without such a neighbor
    /// the key was just taken, and the route goes on, with the combination
    /// without that key, to the cheapest neighbor. It ends on a start cell
    /// reached without keys. `NoEnd` if no end state was chosen.
    pub fn trace_path(&self) -> (r: MazeResult<Vec<Coord>>)
        requires
            self.wf(),
        ensures
            self.end_state() is None ==> r is Err && r->Err_0.kind == MazeErrorKind::NoEnd
                && r->Err_0.details@ == "There is no end zone."@,
            self.end_state() is Some ==> r is Ok && exists|states: Seq<(Coord, usize)>|
                #[trigger] self.is_route(states) && states[0] == self.end_state()->Some_0
                    && r->Ok_0@ == states.map_values(|s: (Coord, usize)| s.0),
    {
        let (mut curr, mut key_comb) = match &self.end {
            Some((coord, comb)) => (*coord, *comb),
            None => {
                return Err(MazeError::new(MazeErrorKind::NoEnd, "There is no end zone.".to_owned()));
            },
        };
        proof {
            self.lemma_wf_parts();
            lemma_index_bounds(self.board(), curr);
        }
        let indx = curr.row as usize * self.width as usize + curr.col as usize;
        let mut dist: u32 = match self.cost_of(indx, key_comb) {
            Some(d) => d,
            None => {
                proof {
                    assert(false);
                }
                return Err(MazeError::new(MazeErrorKind::Other, "The end state has no cost.".to_owned()));
            },
        };
        let empty = start_key_comb();
        let mut path: Vec<Coord> = Vec::new();
        let ghost mut states: Seq<(Coord, usize)> = Seq::empty();
        let ghost first = (curr, key_comb);
        loop
            invariant
                self.wf(),
                self.grid_wf(),
                self.registry_wf(),
                self.end_state() == Some(first),
                crate::keycomb::comb_bits(empty) == zeros(8),
                self.has_cost(curr, key_comb),
                self.cost(curr, key_comb) == dist,
                path@ == states.map_values(|s: (Coord, usize)| s.0),
                states.push((curr, key_comb))[0] == first,
                forall|i: int| 0 <= i < states.len() ==> self.has_cost((#[trigger] states[i]).0, states[i].1),
                forall|i: int|
                    0 <= i < states.len() ==> {
                        &&& !self.at_start((#[trigger] states[i]).0, states[i].1)
                        &&& states.push((curr, key_comb))[i + 1] == self.step_back(states[i].0, states[i].1)
                        &&& adjacent(states[i].0, states.push((curr, key_comb))[i + 1].0)
                        &&& self.cost(
                            states.push((curr, key_comb))[i + 1].0,
                            states.push((curr, key_comb))[i + 1].1,
                        ) < self.cost(states[i].0, states[i].1)
                    },
            decreases dist,
        {
            let ghost before = states;
            path.push(curr);
            proof {
                states = states.push((curr, key_comb));
                assert(path@ =~= states.map_values(|s: (Coord, usize)| s.0));
                self.lemma_cost_facts(curr, key_comb);
                lemma_index_bounds(self.board(), curr);
                self.lemma_empty_is_first(key_comb);
            }
            let indx = curr.row as usize * self.width as usize + curr.col as usize;
            let kind = self.pixels[indx].p_type;
            if kind == PixelType::START && keycomb_eq(&self.key_combs[key_comb], &empty) {
                proof {
                    assert(self.at_start(curr, key_comb));
                    assert(states.last() == (curr, key_comb));
                    assert forall|i: int| 0 <= i < states.len() - 1 implies {
                        &&& !self.at_start((#[trigger] states[i]).0, states[i].1)
                        &&& states[i + 1] == self.step_back(states[i].0, states[i].1)
                        &&& adjacent(states[i].0, states[i + 1].0)
                        &&& self.cost(states[i + 1].0, states[i + 1].1) < self.cost(
                            states[i].0,
                            states[i].1,
                        )
                    } by {
                        assert(states[i] == before[i]);
                    }
                    assert forall|i: int| 0 <= i < states.len() implies self.has_cost(
                        (#[trigger] states[i]).0,
                        states[i].1,
                    ) by {
                        if i < before.len() {
                            assert(states[i] == before[i]);
                        }
                    }
                    assert(self.is_route(states));
                }
                return Ok(path);
            }
            proof {
                assert(!self.at_start(curr, key_comb));
                self.lemma_step_back(curr, key_comb);
            }
            let ghost here = (curr, key_comb);
            let (next, min_dist) = self.look_around(&curr, key_comb, dist);
            proof {
                self.lemma_lowest(curr, key_comb, dist as int, 4);
            }
            if next != curr {
                curr = next;
                dist = min_dist;
            } else if kind == PixelType::KEY {
                let color = self.pixels[indx].color;
                match self.key_index(&color) {
                    Some(pos) => {
                        let prev_comb = keycomb_unset(&self.key_combs[key_comb], pos);
                        match self.find_comb(&prev_comb) {
                            Some(k0) => {
                                proof {
                                    let target = without_bit(self.pool()[key_comb as int], pos as nat);
                                    let k1 = self.reduced(curr, key_comb);
                                    lemma_comb_equal_symmetric(self.pool()[k1 as int], target);
                                    lemma_comb_equal_transitive(
                                        self.pool()[k0 as int],
                                        target,
                                        self.pool()[k1 as int],
                                    );
                                    self.lemma_wf_parts();
                                    self.lemma_pool_unique(k0, k1);
                                }
                                let (next2, min_dist2) = self.look_around(&curr, k0, MAX_DIST);
                                proof {
                                    self.lemma_lowest(curr, k0, MAX_DIST as int, 4);
                                }
                                if next2 != curr {
                                    curr = next2;
                                    key_comb = k0;
                                    dist = min_dist2;
                                } else {
                                    proof {
                                        assert(false);
                                    }
                                    return Err(
                                        MazeError::new(
                                            MazeErrorKind::NoEnd,
                                            "There is no path, but the end state is set.".to_owned(),
                                        ),
                                    );
                                }
                            },
                            None => {
                                proof {
                                    let k1 = self.reduced(curr, key_comb);
                                    assert(comb_equal(
                                        self.pool()[k1 as int],
                                        without_bit(self.pool()[key_comb as int], pos as nat),
                                    ));
                                    assert(false);
                                }
                                return Err(
                                    MazeError::new(
                                        MazeErrorKind::Other,
                                        "The combination without the key is not in the pool.".to_owned(),
                                    ),
                                );
                            },
                        }
                    },
                    None => {
                        proof {
                            assert(false);
                        }
                        return Err(
                            MazeError::new(
                                MazeErrorKind::Other,
                                "Key color not included in the registry.".to_owned(),
                            ),
                        );
                    },
                }
            } else {
                proof {
                    assert(false);
                }
                return Err(
                    MazeError::new(
                        MazeErrorKind::NoEnd,
                        "There is no path, but the end state is set.".to_owned(),
                    ),
                );
            }
            proof {
                assert((curr, key_comb) == self.step_back(here.0, here.1));
                let grown = states.push((curr, key_comb));
                assert(grown[0] == first) by {
                    assert(grown[0] == states[0]);
                    if before.len() > 0 {
                        assert(states[0] == before[0]);
                        assert(before.push(here)[0] == before[0]);
                    }
                }
                assert forall|i: int| 0 <= i < states.len() implies self.has_cost(
                    (#[trigger] states[i]).0,
                    states[i].1,
                ) by {
                    if i < before.len() {
                        assert(states[i] == before[i]);
                    }
                }
                assert forall|i: int| 0 <= i < states.len() implies {
                    &&& !self.at_start((#[trigger] states[i]).0, states[i].1)
                    &&& grown[i + 1] == self.step_back(states[i].0, states[i].1)
                    &&& adjacent(states[i].0, grown[i + 1].0)
                    &&& self.cost(grown[i + 1].0, grown[i + 1].1) < self.cost(states[i].0, states[i].1)
                } by {
                    if i < before.len() {
                        assert(states[i] == before[i]);
                        assert(grown[i + 1] == before.push(here)[i + 1]);
                    } else {
                        assert(states[i] == here);
                        assert(grown[i + 1] == (curr, key_comb));
                    }
                }
            }
        }
    }
}

impl Maze {
    /// Whether `img` shows the maze with the route `states` drawn into it: it
    /// has the maze's size, the cells of the route have the path color, and
    /// every other cell has its own color.
    pub open(crate) spec fn drawn(&self, states: Seq<(Coord, usize)>, img: Image) -> bool {
        &&& image_width(img) == self.spec_width()
        &&& image_height(img) == self.spec_height()
        &&& forall|c: Coord| #[trigger]
            self.valid(c) ==> crate::maze::pixel_color(img, c) == (if exists|i: int|
                0 <= i < states.len() && (#[trigger] states[i]).0 == c {
                path_color()
            } else {
                self.color_at(c)
            })
    }

    /// The picture of the maze with the route from the end state back to the
    /// start drawn in the path color, ready to be saved. `NoEnd` if no end
    /// state was chosen. The size of the picture's file must fit in 32 bits.
    pub fn save_path(&self) -> (r: MazeResult<Image>)
        requires
            self.wf(),
            4 * self.spec_width() <= u32::MAX,
            4 * self.spec_width() * self.spec_height() + 54 <= u32::MAX,
        ensures
            self.end_state() is None ==> r is Err && r->Err_0.kind == MazeErrorKind::NoEnd
                && r->Err_0.details@ == "There is no end zone."@,
            self.end_state() is Some ==> r is Ok && exists|states: Seq<(Coord, usize)>|
                #[trigger] self.is_route(states) && states[0] == self.end_state()->Some_0
                    && self.drawn(states, r->Ok_0),
    {
        let path = match self.trace_path() {
            Ok(path) => path,
            Err(e) => {
                return Err(e);
            },
        };
        let ghost states = choose|states: Seq<(Coord, usize)>|
            #[trigger] self.is_route(states) && states[0] == self.end_state()->Some_0 && path@
                == states.map_values(|s: (Coord, usize)| s.0);
        proof {
            self.lemma_wf_parts();
        }
        let mut img = image_new(self.width, self.height);
        let mut row: u32 = 0;
        while row < self.height
            invariant
                self.grid_wf(),
                row <= self.height,
                image_width(img) == self.width,
                image_height(img) == self.height,
                forall|c: Coord|
                    self.valid(c) && c.row < row ==> #[trigger] crate::maze::pixel_color(img, c)
                        == self.color_at(c),
            decreases self.height - row,
        {
            let mut col: u32 = 0;
            while col < self.width
                invariant
                    self.grid_wf(),
                    row < self.height,
                    col <= self.width,
                    image_width(img) == self.width,
                    image_height(img) == self.height,
                    forall|c: Coord|
                        self.valid(c) && (c.row < row || (c.row == row && c.col < col))
                            ==> #[trigger] crate::maze::pixel_color(img, c) == self.color_at(c),
                decreases self.width - col,
            {
                let curr = Coord::new(row, col);
                proof {
                    lemma_index_bounds(self.board(), curr);
                }
                let indx = row as usize * self.width as usize + col as usize;
                let ghost shown = img;
                image_set_pixel(&mut img, col, row, self.pixels[indx].color);
                proof {
                    assert forall|c: Coord|
                        self.valid(c) && (c.row < row || (c.row == row && c.col < col + 1))
                            implies #[trigger] crate::maze::pixel_color(img, c) == self.color_at(c) by {
                        if c != curr {
                            assert(image_pixel(img, c.col, c.row) == image_pixel(shown, c.col, c.row));
                            assert(crate::maze::pixel_color(shown, c) == self.color_at(c));
                        }
                    }
                }
                col = col + 1;
            }
            row = row + 1;
        }
        let mut j: usize = 0;
        while j < path.len()
            invariant
                self.grid_wf(),
                j <= path@.len(),
                self.is_route(states),
                path@ == states.map_values(|s: (Coord, usize)| s.0),
                image_width(img) == self.width,
                image_height(img) == self.height,
                forall|c: Coord| #[trigger]
                    self.valid(c) ==> crate::maze::pixel_color(img, c) == (if exists|i: int|
                        0 <= i < j && (#[trigger] states[i]).0 == c {
                        path_color()
                    } else {
                        self.color_at(c)
                    }),
            decreases path@.len() - j,
        {
            let cell = path[j];
            let ghost shown = img;
            proof {
                assert(cell == states[j as int].0);
                assert(self.has_cost(states[j as int].0, states[j as int].1));
            }
            image_set_pixel(&mut img, cell.col, cell.row, Color::path());
            proof {
                assert forall|c: Coord| #[trigger] self.valid(c) implies crate::maze::pixel_color(
                    img,
                    c,
                ) == (if exists|i: int| 0 <= i < j + 1 && (#[trigger] states[i]).0 == c {
                    path_color()
                } else {
                    self.color_at(c)
                }) by {
                    if c == cell {
                        assert(states[j as int].0 == c);
                    } else {
                        assert(image_pixel(img, c.col, c.row) == image_pixel(shown, c.col, c.row));
                        assert(crate::maze::pixel_color(shown, c) == (if exists|i: int|
                            0 <= i < j && (#[trigger] states[i]).0 == c {
                            path_color()
                        } else {
                            self.color_at(c)
                        }));
                        if exists|i: int| 0 <= i < j + 1 && (#[trigger] states[i]).0 == c {
                            let i = choose|i: int| 0 <= i < j + 1 && (#[trigger] states[i]).0 == c;
                            assert(0 <= i < j && states[i].0 == c);
                        }
                    }
                }
            }
            j = j + 1;
        }
        proof {
            assert(self.drawn(states, img));
        }
        Ok(img)
    }
}

impl Maze {
    /// Every recorded state has a route back to the start.
    pub proof fn lemma_route_exists(&self, c: Coord, k: usize) -> (states: Seq<(Coord, usize)>)
        requires
            self.wf(),
            self.has_cost(c, k),
        ensures
            self.is_route(states),
            states[0] == (c, k),
        decreases self.cost(c, k),
    {
        if self.at_start(c, k) {
            let states = seq![(c, k)];
            assert(states.last() == (c, k));
            states
        } else {
            self.lemma_step_back(c, k);
            let before = self.step_back(c, k);
            let rest = self.lemma_route_exists(before.0, before.1);
            let states = seq![(c, k)] + rest;
            assert(states[0] == (c, k));
            assert forall|i: int| 0 <= i < states.len() implies self.has_cost(
                (#[trigger] states[i]).0,
                states[i].1,
            ) by {
                if i > 0 {
                    assert(states[i] == rest[i - 1]);
                }
            }
            assert forall|i: int| 0 <= i < states.len() - 1 implies {
                &&& !self.at_start((#[trigger] states[i]).0, states[i].1)
                &&& states[i + 1] == self.step_back(states[i].0, states[i].1)
                &&& adjacent(states[i].0, states[i + 1].0)
                &&& self.cost(states[i + 1].0, states[i + 1].1) < self.cost(states[i].0, states[i].1)
            } by {
                assert(states[i + 1] == rest[i]);
                if i > 0 {
                    assert(states[i] == rest[i - 1]);
                    assert(rest[i - 1 + 1] == self.step_back(rest[i - 1].0, rest[i - 1].1));
                }
            }
            assert(states.last() == rest.last());
            states
        }
    }

    /// A route visits only classified cells that are no walls, goes from cell
    /// to cell by single steps, and ends on a start cell with the combination
    /// that holds no key.
    pub proof fn lemma_route_is_walkable(&self, states: Seq<(Coord, usize)>)
        requires
            self.wf(),
            self.is_route(states),
        ensures
            forall|i: int|
                0 <= i < states.len() ==> self.valid((#[trigger] states[i]).0) && self.kind_at(
                    states[i].0,
                ) != PixelType::WALL && self.kind_at(states[i].0) != PixelType::UNSET,
            forall|i: int| 0 <= i < states.len() - 1 ==> adjacent((#[trigger] states[i]).0, states[i + 1].0),
            self.kind_at(states.last().0) == PixelType::START,
            self.pool()[states.last().1 as int] == zeros(8),
    {
        assert forall|i: int| 0 <= i < states.len() implies self.valid((#[trigger] states[i]).0)
            && self.kind_at(states[i].0) != PixelType::WALL && self.kind_at(states[i].0)
            != PixelType::UNSET by {
            self.lemma_cost_facts(states[i].0, states[i].1);
        }
        self.lemma_wf_parts();
    }
}

} // verus!
