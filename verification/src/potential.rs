use vstd::prelude::*;

verus! {

/// What an absent cost counts for: more than any cost.
pub open spec fn free_slot() -> nat {
    0x1_0000_0000
}

/// What the entry of one combination counts for: its cost, or `free_slot()`
/// when there is none.
pub open spec fn slot(m: Map<usize, u32>, k: usize) -> nat {
    if m.contains_key(k) {
        m[k] as nat
    } else {
        free_slot()
    }
}

/// The sum of what the entries of the first `p` combinations count for.
pub open spec fn cell_potential(m: Map<usize, u32>, p: nat) -> nat
    decreases p,
{
    if p == 0 {
        0
    } else {
        cell_potential(m, (p - 1) as nat) + slot(m, (p - 1) as usize)
    }
}

/// The sum of the cells' potentials.
pub open spec fn grid_potential(cells: Seq<Map<usize, u32>>, p: nat) -> nat
    decreases cells.len(),
{
    if cells.len() == 0 {
        0
    } else {
        grid_potential(cells.drop_last(), p) + cell_potential(cells.last(), p)
    }
}

/// How much a search can still improve: what the entries of the `p`
/// combinations formed so far count for, and a free slot in every cell for
/// every combination that may yet be formed. It never grows, and every
/// improvement of a cost lowers it.
pub open spec fn potential(cells: Seq<Map<usize, u32>>, p: nat) -> int {
    grid_potential(cells, p) + (usize::MAX - p) * (cells.len() * free_slot())
}

/// Recording a cost where there was none, or a lower one, lowers the cell's
/// potential by the difference.
pub proof fn lemma_cell_insert(m: Map<usize, u32>, k: usize, d: u32, p: nat)
    requires
        p <= usize::MAX,
    ensures
        k < p ==> cell_potential(m.insert(k, d), p) + slot(m, k) == cell_potential(m, p) + d,
        k >= p ==> cell_potential(m.insert(k, d), p) == cell_potential(m, p),
    decreases p,
{
    if p > 0 {
        lemma_cell_insert(m, k, d, (p - 1) as nat);
        let last = (p - 1) as usize;
        if last != k {
            assert(slot(m.insert(k, d), last) == slot(m, last));
        }
    }
}

/// Changing one cell changes the grid's potential by that cell's change.
pub proof fn lemma_grid_update(cells: Seq<Map<usize, u32>>, i: int, m: Map<usize, u32>, p: nat)
    requires
        0 <= i < cells.len(),
    ensures
        grid_potential(cells.update(i, m), p) + cell_potential(cells[i], p) == grid_potential(cells, p)
            + cell_potential(m, p),
    decreases cells.len(),
{
    let changed = cells.update(i, m);
    if i == cells.len() - 1 {
        assert(changed.drop_last() =~= cells.drop_last());
    } else {
        lemma_grid_update(cells.drop_last(), i, m, p);
        assert(changed.drop_last() =~= cells.drop_last().update(i, m));
    }
}

/// A new combination, for which no cell has a cost yet, adds a free slot to
/// every cell.
pub proof fn lemma_grid_grow(cells: Seq<Map<usize, u32>>, p: nat)
    requires
        p < usize::MAX,
        forall|i: int| 0 <= i < cells.len() ==> !(#[trigger] cells[i]).contains_key(p as usize),
    ensures
        grid_potential(cells, p + 1) == grid_potential(cells, p) + cells.len() * free_slot(),
        potential(cells, p + 1) == potential(cells, p),
    decreases cells.len(),
{
    if cells.len() > 0 {
        let rest = cells.drop_last();
        assert forall|i: int| 0 <= i < rest.len() implies !(#[trigger] rest[i]).contains_key(
            p as usize,
        ) by {
            assert(rest[i] == cells[i]);
        }
        lemma_grid_grow(rest, p);
        assert(cell_potential(cells.last(), p + 1) == cell_potential(cells.last(), p) + slot(
            cells.last(),
            p as usize,
        ));
        assert(cells.len() * free_slot() == rest.len() * free_slot() + free_slot()) by (nonlinear_arith)
            requires
                cells.len() == rest.len() + 1,
        ;
    }
    let n = (cells.len() * free_slot()) as int;
    assert((usize::MAX - p) * n == (usize::MAX - (p + 1)) * n + n) by (nonlinear_arith);
}

/// The potential is never negative.
pub proof fn lemma_potential_bounds(cells: Seq<Map<usize, u32>>, p: nat)
    requires
        p <= usize::MAX,
    ensures
        potential(cells, p) >= 0,
{
    assert((usize::MAX - p) * (cells.len() * free_slot()) >= 0) by (nonlinear_arith)
        requires
            usize::MAX - p >= 0,
            cells.len() * free_slot() >= 0,
    ;
}

} // verus!
