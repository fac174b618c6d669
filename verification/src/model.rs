//! The mathematical model of a puzzle: which cells constrain each other,
//! which values a cell may take, and what counts as a solution.

use vstd::prelude::*;

verus! {

/// Cells `i` and `j` lie in the same row of a grid whose rows hold
/// `elements` cells each.
pub open spec fn same_row(elements: int, i: int, j: int) -> bool {
    i / elements == j / elements
}

/// Cells `i` and `j` lie in the same column.
pub open spec fn same_col(elements: int, i: int, j: int) -> bool {
    i % elements == j % elements
}

/// Cells `i` and `j` lie in the same `boxsize`-by-`boxsize` box.
pub open spec fn same_box(elements: int, boxsize: int, i: int, j: int) -> bool {
    &&& (i / elements) / boxsize == (j / elements) / boxsize
    &&& (i % elements) / boxsize == (j % elements) / boxsize
}

/// Cell `j` is a peer of cell `i`: a different cell of the same row,
/// column or box.
pub open spec fn sees(elements: int, boxsize: int, i: int, j: int) -> bool {
    &&& j != i
    &&& (same_row(elements, i, j) || same_col(elements, i, j) || same_box(
        elements,
        boxsize,
        i,
        j,
    ))
}

/// Value `v` is ruled out for cell `i` because a peer of `i` already holds it.
/// The cell's own content never rules anything out.
pub open spec fn blocked(cells: Seq<u8>, elements: int, boxsize: int, i: int, v: u8) -> bool {
    exists|j: int|
        0 <= j < cells.len() && sees(elements, boxsize, i, j) && #[trigger] cells[j] == v
}

/// Value `v` may legally be placed in cell `i` of the current grid.
pub open spec fn is_candidate(cells: Seq<u8>, elements: int, boxsize: int, i: int, v: u8) -> bool {
    &&& 1 <= v <= elements
    &&& !blocked(cells, elements, boxsize, i, v)
}

/// Every pre-filled cell holds a value in range that no peer repeats.
pub open spec fn givens_ok(cells: Seq<u8>, elements: int, boxsize: int) -> bool {
    forall|i: int|
        0 <= i < cells.len() && #[trigger] cells[i] != 0 ==> cells[i] <= elements && !blocked(
            cells,
            elements,
            boxsize,
            i,
            cells[i],
        )
}

/// `sol` is a complete, valid solution of the puzzle `orig`: every cell is
/// filled with an in-range value, the pre-filled cells are kept, and no two
/// peers agree.
pub open spec fn is_solution(sol: Seq<u8>, orig: Seq<u8>, elements: int, boxsize: int) -> bool {
    &&& sol.len() == orig.len()
    &&& forall|i: int| 0 <= i < sol.len() ==> 1 <= #[trigger] sol[i] <= elements
    &&& forall|i: int| 0 <= i < sol.len() && #[trigger] orig[i] != 0 ==> sol[i] == orig[i]
    &&& forall|i: int, j: int|
        0 <= i < sol.len() && 0 <= j < sol.len() && sees(elements, boxsize, i, j)
            ==> #[trigger] sol[i] != #[trigger] sol[j]
}

/// `a` and `b` agree on every cell index below `i`.
pub open spec fn agrees_below(a: Seq<u8>, b: Seq<u8>, i: int) -> bool {
    forall|k: int| 0 <= k < i ==> a[k] == #[trigger] b[k]
}

/// `a` comes strictly before `b` in row-major lexicographic order: at the
/// first cell where they differ, `a` holds the smaller value.
pub open spec fn lex_before(a: Seq<u8>, b: Seq<u8>) -> bool {
    exists|i: int|
        0 <= i < a.len() && i < b.len() && agrees_below(a, b, i) && (#[trigger] a[i]) < b[i]
}

/// Index of the first empty cell of `cells` at or after `i`, or `cells.len()`
/// if every cell from `i` on is filled.
pub open spec fn first_empty_from(cells: Seq<u8>, i: int) -> int
    decreases cells.len() - i,
    when 0 <= i <= cells.len()
{
    if i >= cells.len() {
        cells.len() as int
    } else if cells[i] == 0 {
        i
    } else {
        first_empty_from(cells, i + 1)
    }
}

/// What `first_empty_from` returns: an empty cell (or the length), with no
/// empty cell before it in the scanned range.
pub proof fn lemma_first_empty_from(cells: Seq<u8>, i: int)
    requires
        0 <= i <= cells.len(),
    ensures
        i <= first_empty_from(cells, i) <= cells.len(),
        first_empty_from(cells, i) < cells.len() ==> cells[first_empty_from(cells, i)] == 0,
        forall|j: int| i <= j < first_empty_from(cells, i) ==> cells[j] != 0,
    decreases cells.len() - i,
{
    if i < cells.len() && cells[i] != 0 {
        lemma_first_empty_from(cells, i + 1);
    }
}

} // verus!
