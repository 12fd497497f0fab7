use vstd::prelude::*;
use crate::board::Board;
use crate::cell::PixelType;
use crate::color::{end_color, grey, start_color, wall_color};
use crate::coord::{adjacent, Coord};

verus! {

/// A walk on the grid that stays on cells of one color.
pub open spec fn is_trail(b: Board, p: Seq<Coord>) -> bool {
    &&& p.len() >= 1
    &&& forall|i: int| 0 <= i < p.len() ==> b.valid(#[trigger] p[i]) && b.color(p[i]) == b.color(p[0])
    &&& forall|i: int| 0 <= i < p.len() - 1 ==> adjacent(#[trigger] p[i], p[i + 1])
}

/// Whether a walk over cells of one color leads from `a` to `c`.
pub open spec fn connected(b: Board, a: Coord, c: Coord) -> bool {
    exists|p: Seq<Coord>| #[trigger] is_trail(b, p) && p[0] == a && p.last() == c
}

/// The region of a cell: the cells that walks over its color reach from it.
pub open spec fn region(b: Board, seed: Coord) -> Set<Coord> {
    Set::new(|c: Coord| connected(b, seed, c))
}

/// The rows from `lo` to `hi` are the least range of rows that holds the set.
pub open spec fn spans_rows(s: Set<Coord>, lo: int, hi: int) -> bool {
    &&& exists|c: Coord| #[trigger] s.contains(c) && c.row == lo
    &&& exists|c: Coord| #[trigger] s.contains(c) && c.row == hi
    &&& forall|c: Coord| #[trigger] s.contains(c) ==> lo <= c.row <= hi
}

/// The columns from `lo` to `hi` are the least range of columns that holds the set.
pub open spec fn spans_cols(s: Set<Coord>, lo: int, hi: int) -> bool {
    &&& exists|c: Coord| #[trigger] s.contains(c) && c.col == lo
    &&& exists|c: Coord| #[trigger] s.contains(c) && c.col == hi
    &&& forall|c: Coord| #[trigger] s.contains(c) ==> lo <= c.col <= hi
}

/// The set's bounding box is `kh` rows high and `kw` columns wide, and the set
/// has as many cells as that box.
pub open spec fn fills_box(s: Set<Coord>, kh: nat, kw: nat) -> bool {
    &&& s.finite()
    &&& s.len() == kh * kw
    &&& exists|top: int| #[trigger] spans_rows(s, top, top + kh - 1)
    &&& exists|left: int| #[trigger] spans_cols(s, left, left + kw - 1)
}

/// What a cell is, given the size of key regions: black is a wall, any other
/// gray is free, the two reserved colors mark start and end, and a region of
/// any other color is a key when it exactly fills a box of the key size, and a
/// zone when it does not.
pub open spec fn cell_kind(b: Board, kh: nat, kw: nat, c: Coord) -> PixelType {
    let color = b.color(c);
    if color == wall_color() {
        PixelType::WALL
    } else if grey(color) {
        PixelType::FREE
    } else if color == end_color() {
        PixelType::END
    } else if color == start_color() {
        PixelType::START
    } else if fills_box(region(b, c), kh, kw) {
        PixelType::KEY
    } else {
        PixelType::ZONE
    }
}

/// Every cell of the grid is connected to itself.
pub proof fn lemma_connected_refl(b: Board, a: Coord)
    requires
        b.valid(a),
    ensures
        connected(b, a, a),
{
    let p = seq![a];
    assert(is_trail(b, p));
    assert(p[0] == a && p.last() == a);
}

/// A walk can be lengthened by one step onto a cell of the same color.
pub proof fn lemma_connected_step(b: Board, a: Coord, c: Coord, d: Coord)
    requires
        connected(b, a, c),
        b.valid(d),
        adjacent(c, d),
        b.color(d) == b.color(c),
    ensures
        connected(b, a, d),
{
    let p = choose|p: Seq<Coord>| #[trigger] is_trail(b, p) && p[0] == a && p.last() == c;
    let q = p.push(d);
    assert forall|i: int| 0 <= i < q.len() implies b.valid(#[trigger] q[i]) && b.color(q[i]) == b.color(
        q[0],
    ) by {
        if i < p.len() {
            assert(q[i] == p[i]);
        }
    }
    assert forall|i: int| 0 <= i < q.len() - 1 implies adjacent(#[trigger] q[i], q[i + 1]) by {
        if i < p.len() - 1 {
            assert(q[i] == p[i] && q[i + 1] == p[i + 1]);
        }
    }
    assert(is_trail(b, q));
    assert(q[0] == a && q.last() == d);
}

/// A walk can be walked backwards.
pub proof fn lemma_connected_symmetric(b: Board, a: Coord, c: Coord)
    requires
        connected(b, a, c),
    ensures
        connected(b, c, a),
{
    let p = choose|p: Seq<Coord>| #[trigger] is_trail(b, p) && p[0] == a && p.last() == c;
    let n = p.len() as int;
    let q = Seq::new(p.len(), |i: int| p[n - 1 - i]);
    assert forall|i: int| 0 <= i < q.len() implies b.valid(#[trigger] q[i]) && b.color(q[i]) == b.color(
        q[0],
    ) by {
        assert(q[i] == p[n - 1 - i]);
        assert(q[0] == p[n - 1]);
    }
    assert forall|i: int| 0 <= i < q.len() - 1 implies adjacent(#[trigger] q[i], q[i + 1]) by {
        assert(q[i] == p[n - 1 - i]);
        assert(q[i + 1] == p[n - 2 - i]);
        assert(adjacent(p[n - 2 - i], p[n - 2 - i + 1]));
    }
    assert(is_trail(b, q));
    assert(q[0] == c && q.last() == a);
}

/// Two walks that meet can be joined.
pub proof fn lemma_connected_transitive(b: Board, a: Coord, c: Coord, d: Coord)
    requires
        connected(b, a, c),
        connected(b, c, d),
    ensures
        connected(b, a, d),
{
    let p = choose|p: Seq<Coord>| #[trigger] is_trail(b, p) && p[0] == a && p.last() == c;
    let q = choose|q: Seq<Coord>| #[trigger] is_trail(b, q) && q[0] == c && q.last() == d;
    let n = p.len() as int;
    let t = p + q.subrange(1, q.len() as int);
    assert forall|i: int| 0 <= i < t.len() implies b.valid(#[trigger] t[i]) && b.color(t[i]) == b.color(
        t[0],
    ) by {
        if i < n {
            assert(t[i] == p[i]);
        } else {
            assert(t[i] == q[i - n + 1]);
        }
        assert(t[0] == p[0]);
        assert(b.color(q[0]) == b.color(p[n - 1]));
    }
    assert forall|i: int| 0 <= i < t.len() - 1 implies adjacent(#[trigger] t[i], t[i + 1]) by {
        if i < n - 1 {
            assert(t[i] == p[i] && t[i + 1] == p[i + 1]);
        } else if i == n - 1 {
            assert(t[i] == p[n - 1] && t[i + 1] == q[1]);
            assert(adjacent(q[0], q[1]));
        } else {
            assert(t[i] == q[i - n + 1] && t[i + 1] == q[i - n + 2]);
            assert(adjacent(q[i - n + 1], q[i - n + 1 + 1]));
        }
    }
    assert(is_trail(b, t));
    assert(t[0] == a);
    if q.len() == 1 {
        assert(t =~= p);
    } else {
        assert(t.last() == q.last());
    }
    assert(t.last() == d);
}

/// A walk over cells of one color can be cut down to one that visits no cell
/// twice.
pub proof fn lemma_trail_trimmed(b: Board, p: Seq<Coord>) -> (q: Seq<Coord>)
    requires
        is_trail(b, p),
    ensures
        is_trail(b, q),
        q[0] == p[0],
        q.last() == p.last(),
        q.no_duplicates(),
        q.len() <= b.width * b.height,
    decreases p.len(),
{
    if p.no_duplicates() {
        lemma_distinct_cells(b, p);
        p
    } else {
        let (i, j) = choose|i: int, j: int|
            0 <= i < p.len() && 0 <= j < p.len() && i != j && p[i] == p[j];
        let (lo, hi) = if i < j {
            (i, j)
        } else {
            (j, i)
        };
        let n = p.len() as int;
        let cut = p.subrange(0, lo) + p.subrange(hi, n);
        assert(cut.len() == lo + n - hi);
        assert forall|t: int| 0 <= t < cut.len() implies cut[t] == (if t < lo {
            p[t]
        } else {
            p[t - lo + hi]
        }) by {}
        assert(cut[0] == p[0]);
        assert forall|t: int| 0 <= t < cut.len() implies b.valid(#[trigger] cut[t]) && b.color(cut[t])
            == b.color(cut[0]) by {
            if t < lo {
                assert(b.valid(p[t]));
            } else {
                assert(b.valid(p[t - lo + hi]));
            }
        }
        assert forall|t: int| 0 <= t < cut.len() - 1 implies adjacent(#[trigger] cut[t], cut[t + 1]) by {
            if t < lo - 1 {
                assert(adjacent(p[t], p[t + 1]));
            } else if t == lo - 1 {
                assert(cut[t + 1] == p[hi]);
                assert(adjacent(p[lo - 1], p[lo - 1 + 1]));
            } else {
                assert(adjacent(p[t - lo + hi], p[t - lo + hi + 1]));
            }
        }
        assert(cut.last() == p.last());
        lemma_trail_trimmed(b, cut)
    }
}

/// Connected cells lie on the grid and have one color.
pub proof fn lemma_connected_color(b: Board, a: Coord, c: Coord)
    requires
        connected(b, a, c),
    ensures
        b.valid(a),
        b.valid(c),
        b.color(c) == b.color(a),
{
    let p = choose|p: Seq<Coord>| #[trigger] is_trail(b, p) && p[0] == a && p.last() == c;
    assert(b.valid(p[0]));
    assert(b.valid(p[p.len() - 1]));
}

/// Connected cells have the same region, and so are of the same kind.
pub proof fn lemma_region_shared(b: Board, a: Coord, c: Coord)
    requires
        connected(b, a, c),
    ensures
        region(b, c) == region(b, a),
        forall|kh: nat, kw: nat| #[trigger] cell_kind(b, kh, kw, c) == cell_kind(b, kh, kw, a),
{
    lemma_connected_symmetric(b, a, c);
    lemma_connected_color(b, a, c);
    assert forall|d: Coord| region(b, c).contains(d) == region(b, a).contains(d) by {
        if connected(b, c, d) {
            lemma_connected_transitive(b, a, c, d);
        }
        if connected(b, a, d) {
            lemma_connected_transitive(b, c, a, d);
        }
    }
    assert(region(b, c) =~= region(b, a));
}

/// A walk that starts in a set which holds, with each of its cells, the
/// neighbors of the same color, stays in the set.
proof fn lemma_trail_stays(b: Board, s: Set<Coord>, p: Seq<Coord>, i: int)
    requires
        is_trail(b, p),
        s.contains(p[0]),
        0 <= i < p.len(),
        forall|a: Coord, d: Coord|
            #[trigger] s.contains(a) && b.valid(d) && #[trigger] adjacent(a, d) && b.color(d) == b.color(a)
                ==> s.contains(d),
    ensures
        s.contains(p[i]),
    decreases i,
{
    if i > 0 {
        lemma_trail_stays(b, s, p, i - 1);
        assert(adjacent(p[i - 1], p[i - 1 + 1]));
        assert(b.valid(p[i]));
        assert(b.valid(p[i - 1]));
    }
}

/// A set that holds a cell, and with each of its cells the neighbors of the
/// same color, holds the cell's whole region.
pub proof fn lemma_closed_set_covers(b: Board, seed: Coord, s: Set<Coord>)
    requires
        s.contains(seed),
        forall|a: Coord, d: Coord|
            #[trigger] s.contains(a) && b.valid(d) && #[trigger] adjacent(a, d) && b.color(d) == b.color(a)
                ==> s.contains(d),
    ensures
        forall|c: Coord| connected(b, seed, c) ==> s.contains(c),
{
    assert forall|c: Coord| connected(b, seed, c) implies s.contains(c) by {
        let p = choose|p: Seq<Coord>| #[trigger] is_trail(b, p) && p[0] == seed && p.last() == c;
        lemma_trail_stays(b, s, p, p.len() - 1);
    }
}

/// A sequence of distinct numbers below `n` has at most `n` members.
pub proof fn lemma_distinct_in_range(s: Seq<int>, n: nat)
    requires
        s.no_duplicates(),
        forall|i: int| 0 <= i < s.len() ==> 0 <= #[trigger] s[i] < n,
    ensures
        s.len() <= n,
{
    s.unique_seq_to_set();
    let r = vstd::set_lib::set_int_range(0, n as int);
    vstd::set_lib::lemma_int_range(0, n as int);
    assert(s.to_set().subset_of(r));
    vstd::set_lib::lemma_len_subset(s.to_set(), r);
}

/// Distinct cells of a grid are at most as many as the grid has cells.
pub proof fn lemma_distinct_cells(b: Board, s: Seq<Coord>)
    requires
        s.no_duplicates(),
        forall|i: int| 0 <= i < s.len() ==> b.valid(#[trigger] s[i]),
    ensures
        s.len() <= b.width * b.height,
{
    let t = Seq::new(s.len(), |i: int| b.index(s[i]));
    assert forall|i: int, j: int| 0 <= i < t.len() && 0 <= j < t.len() && i != j implies t[i] != t[j] by {
        if t[i] == t[j] {
            crate::board::lemma_index_injective(b, s[i], s[j]);
        }
    }
    assert forall|i: int| 0 <= i < t.len() implies 0 <= #[trigger] t[i] < b.width * b.height by {
        crate::board::lemma_index_bounds(b, s[i]);
    }
    lemma_distinct_in_range(t, b.width * b.height);
}

} // verus!
