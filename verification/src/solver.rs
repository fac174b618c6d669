//! The backtracking solver: an explicit-state, pull-based search over a
//! single working grid that yields each completed grid in turn.
//!
//! The search never recurses: a cursor points at the cell to branch on, an
//! explicit stack records the cells currently holding trial values, and a
//! memo table keeps the untried candidates of each visited cell.

use vstd::prelude::*;

use crate::grid::{SudokuError, SudokuGrid};
use crate::model::{
    agrees_below, blocked, first_empty_from, givens_ok, is_candidate, is_solution, lex_before,
    lemma_first_empty_from, sees,
};
use vstd::arithmetic::power::{lemma_pow1, lemma_pow_adds, lemma_pow_increases, lemma_pow_positive, pow};

verus! {

/// How many cells of `orig` at or after index `from` are empty.
pub open spec fn count_empties(orig: Seq<u8>, from: int) -> nat
    decreases orig.len() - from,
{
    if from >= orig.len() || from < 0 {
        0
    } else {
        (if orig[from] == 0 {
            1nat
        } else {
            0nat
        }) + count_empties(orig, from + 1)
    }
}

/// The weight of branching at cell `i`: exponential in the number of empty
/// cells that come after it, so that work at a shallow cell outweighs any
/// amount of work deeper in the search tree.
pub open spec fn weight(el: int, orig: Seq<u8>, i: int) -> int {
    pow(el + 2, count_empties(orig, i + 1))
}

/// The untried candidates left in a memo slot; a slot not yet computed may
/// still yield anything, so it costs more than any computed slot.
pub open spec fn slot_cost(poss: Seq<Option<Vec<u8>>>, el: int, i: int) -> int {
    match poss[i] {
        Some(l) => l@.len() as int,
        None => el + 1,
    }
}

/// The weighted work left in the cells of the search path.
pub open spec fn stack_measure(
    stack: Seq<usize>,
    poss: Seq<Option<Vec<u8>>>,
    el: int,
    orig: Seq<u8>,
) -> int
    decreases stack.len(),
{
    if stack.len() == 0 {
        0
    } else {
        stack_measure(stack.drop_last(), poss, el, orig) + slot_cost(
            poss,
            el,
            stack.last() as int,
        ) * weight(el, orig, stack.last() as int)
    }
}

/// The work left in the whole search state: the path plus the cursor cell.
pub open spec fn search_measure(
    stack: Seq<usize>,
    poss: Seq<Option<Vec<u8>>>,
    el: int,
    orig: Seq<u8>,
    x: int,
    sz: int,
) -> int {
    stack_measure(stack, poss, el, orig) + if x < sz {
        slot_cost(poss, el, x) * weight(el, orig, x)
    } else {
        0
    }
}

/// How many memo slots are computed.
pub open spec fn count_memos(poss: Seq<Option<Vec<u8>>>) -> int
    decreases poss.len(),
{
    if poss.len() == 0 {
        0
    } else {
        count_memos(poss.drop_last()) + if poss.last() is Some {
            1int
        } else {
            0
        }
    }
}

proof fn lemma_weight_pos(el: int, orig: Seq<u8>, i: int)
    requires
        0 <= el,
    ensures
        weight(el, orig, i) >= 1,
{
    lemma_pow_positive(el + 2, count_empties(orig, i + 1));
}

proof fn lemma_stack_measure_nonneg(
    stack: Seq<usize>,
    poss: Seq<Option<Vec<u8>>>,
    el: int,
    orig: Seq<u8>,
)
    requires
        0 <= el,
    ensures
        stack_measure(stack, poss, el, orig) >= 0,
    decreases stack.len(),
{
    if stack.len() > 0 {
        lemma_stack_measure_nonneg(stack.drop_last(), poss, el, orig);
        lemma_weight_pos(el, orig, stack.last() as int);
        let c = slot_cost(poss, el, stack.last() as int);
        let w = weight(el, orig, stack.last() as int);
        assert(c * w >= 0) by (nonlinear_arith)
            requires
                c >= 0,
                w >= 0,
        ;
    }
}

/// Changing the memo of a cell that is not on the stack leaves the stack's
/// measure unchanged.
proof fn lemma_stack_measure_update(
    stack: Seq<usize>,
    poss: Seq<Option<Vec<u8>>>,
    poss2: Seq<Option<Vec<u8>>>,
    el: int,
    orig: Seq<u8>,
    x: int,
)
    requires
        poss2.len() == poss.len(),
        forall|i: int| 0 <= i < poss.len() && i != x ==> poss2[i] == poss[i],
        forall|k: int|
            0 <= k < stack.len() ==> 0 <= (#[trigger] stack[k] as int) < poss.len() && stack[k]
                as int != x,
    ensures
        stack_measure(stack, poss2, el, orig) == stack_measure(stack, poss, el, orig),
    decreases stack.len(),
{
    if stack.len() > 0 {
        lemma_stack_measure_update(stack.drop_last(), poss, poss2, el, orig, x);
    }
}

proof fn lemma_stack_measure_push(
    stack: Seq<usize>,
    poss: Seq<Option<Vec<u8>>>,
    el: int,
    orig: Seq<u8>,
    x: usize,
)
    ensures
        stack_measure(stack.push(x), poss, el, orig) == stack_measure(stack, poss, el, orig)
            + slot_cost(poss, el, x as int) * weight(el, orig, x as int),
{
    assert(stack.push(x).drop_last() =~= stack);
    assert(stack.push(x).last() == x);
}

proof fn lemma_count_memos_nonneg(poss: Seq<Option<Vec<u8>>>)
    ensures
        count_memos(poss) >= 0,
    decreases poss.len(),
{
    if poss.len() > 0 {
        lemma_count_memos_nonneg(poss.drop_last());
    }
}

/// How replacing one memo slot moves the count of computed slots.
proof fn lemma_count_memos_update(poss: Seq<Option<Vec<u8>>>, x: int, val: Option<Vec<u8>>)
    requires
        0 <= x < poss.len(),
    ensures
        count_memos(poss.update(x, val)) == count_memos(poss) + (if val is Some {
            1int
        } else {
            0
        }) - (if poss[x] is Some {
            1int
        } else {
            0
        }),
    decreases poss.len(),
{
    let p2 = poss.update(x, val);
    if x == poss.len() - 1 {
        assert(p2.drop_last() =~= poss.drop_last());
        assert(p2.last() == val);
    } else {
        assert(p2.drop_last() =~= poss.drop_last().update(x, val));
        assert(p2.last() == poss.last());
        lemma_count_memos_update(poss.drop_last(), x, val);
    }
}

proof fn lemma_count_empties_skip(orig: Seq<u8>, a: int, b: int)
    requires
        0 <= a <= b < orig.len(),
        orig[b] == 0,
    ensures
        count_empties(orig, a) >= 1 + count_empties(orig, b + 1),
    decreases b - a,
{
    if a < b {
        lemma_count_empties_skip(orig, a + 1, b);
    }
}

/// Advancing the cursor past an empty cell divides the available weight by
/// at least the branching factor.
proof fn lemma_weight_gap(el: int, orig: Seq<u8>, x: int, x2: int)
    requires
        0 <= el,
        0 <= x < x2 < orig.len(),
        orig[x2] == 0,
    ensures
        weight(el, orig, x) >= (el + 2) * weight(el, orig, x2),
        weight(el, orig, x2) >= 1,
{
    lemma_count_empties_skip(orig, x + 1, x2);
    let e1 = count_empties(orig, x + 1);
    let e2 = count_empties(orig, x2 + 1);
    lemma_pow_positive(el + 2, e2);
    lemma_pow_adds(el + 2, e2, 1);
    lemma_pow1(el + 2);
    lemma_pow_increases((el + 2) as nat, e2 + 1, e1);
    assert(pow(el + 2, e2 + 1) == pow(el + 2, e2) * (el + 2));
    assert(pow(el + 2, e2) * (el + 2) == (el + 2) * pow(el + 2, e2)) by (nonlinear_arith);
}

/// What joining the stack does to membership.
proof fn lemma_on_stack_push(stack: Seq<usize>, x: usize)
    ensures
        forall|j: int|
            #[trigger] on_stack(stack.push(x), j) ==> (on_stack(stack, j) || j == x as int),
        forall|j: int| #[trigger] on_stack(stack, j) ==> on_stack(stack.push(x), j),
        on_stack(stack.push(x), x as int),
{
    assert forall|j: int| #[trigger] on_stack(stack.push(x), j) implies (on_stack(stack, j) || j
        == x as int) by {
        let k = choose|k: int|
            0 <= k < stack.push(x).len() && #[trigger] stack.push(x)[k] as int == j;
        if k < stack.len() {
            assert(stack[k] as int == j);
        }
    }
    assert forall|j: int| #[trigger] on_stack(stack, j) implies on_stack(stack.push(x), j) by {
        let k = choose|k: int| 0 <= k < stack.len() && #[trigger] stack[k] as int == j;
        assert(stack.push(x)[k] as int == j);
    }
    assert(stack.push(x)[stack.len() as int] as int == x as int);
}

/// What leaving the stack does to membership.
proof fn lemma_on_stack_drop(stack: Seq<usize>)
    requires
        stack.len() > 0,
    ensures
        forall|j: int|
            #[trigger] on_stack(stack, j) ==> (on_stack(stack.drop_last(), j) || j == stack.last()
                as int),
        forall|j: int| #[trigger] on_stack(stack.drop_last(), j) ==> on_stack(stack, j),
        on_stack(stack, stack.last() as int),
{
    assert forall|j: int| #[trigger] on_stack(stack, j) implies (on_stack(stack.drop_last(), j)
        || j == stack.last() as int) by {
        let k = choose|k: int| 0 <= k < stack.len() && #[trigger] stack[k] as int == j;
        if k < stack.len() - 1 {
            assert(stack.drop_last()[k] as int == j);
        }
    }
    assert forall|j: int| #[trigger] on_stack(stack.drop_last(), j) implies on_stack(
        stack,
        j,
    ) by {
        let k = choose|k: int|
            0 <= k < stack.drop_last().len() && #[trigger] stack.drop_last()[k] as int == j;
        assert(stack[k] as int == j);
    }
    assert(stack[stack.len() - 1] as int == stack.last() as int);
}

/// A value that the candidate computation allows at a cell fits there: no
/// peer at all holds it, in particular no given and no shallower trial cell.
proof fn lemma_candidate_fits(s: SudokuSolver, x: int, v: u8)
    requires
        s.grid.wf(),
        0 <= x < s.sz(),
        is_candidate(s.grid.cells@, s.eli(), s.bsi(), x, v),
    ensures
        s.value_fits(x, v),
{
    assert forall|j: int|
        0 <= j < s.sz() && #[trigger] sees(s.eli(), s.bsi(), x, j) && (s.original@[j] != 0 || (
        on_stack(s.index_stack@, j) && j < x)) implies s.grid.cells@[j] != v by {
        if s.grid.cells@[j] == v {
            assert(blocked(s.grid.cells@, s.eli(), s.bsi(), x, v));
        }
    }
}

/// Index `i` is one of the entries of `stack`.
pub open spec fn on_stack(stack: Seq<usize>, i: int) -> bool {
    exists|k: int| 0 <= k < stack.len() && #[trigger] stack[k] as int == i
}

/// A solver for one grid.  Construct it with [`solutions`], which rejects a
/// self-contradictory puzzle first; each call of [`SudokuSolver::next`] then
/// yields one more solution until the search is exhausted.
pub struct SudokuSolver {
    /// The single mutable working grid, mutated in place as the search
    /// advances and backtracks.
    pub grid: SudokuGrid,
    /// The cell to branch on next.  A value at or past the grid size means
    /// the working grid is a complete solution; `None` means the search is
    /// exhausted for good.
    pub next_index: Option<usize>,
    /// The current search path: the indices of the cells holding trial
    /// values, shallow to deep.
    pub index_stack: Vec<usize>,
    /// For every index, the index of the next cell after it that is empty
    /// in the original grid, or the grid size if none remains.
    pub index_of_next_empty: Vec<usize>,
    /// Per cell, the untried candidate values of the current visit, kept
    /// largest first so that the smallest is popped next; `None` where not
    /// computed.
    pub possibles: Vec<Option<Vec<u8>>>,
    /// The puzzle as given, before the search mutated the working grid.
    pub original: Ghost<Seq<u8>>,
    /// The cell sequences of the solutions handed out so far.
    pub emitted: Ghost<Set<Seq<u8>>>,
}

impl SudokuSolver {
    /// The element count, as an integer.
    pub open spec fn eli(self) -> int {
        self.grid.elements as int
    }

    /// The box side, as an integer.
    pub open spec fn bsi(self) -> int {
        self.grid.boxsize as int
    }

    /// The cell count, as an integer.
    pub open spec fn sz(self) -> int {
        self.grid.size as int
    }

    /// The parts of the invariant that hold in every state: shapes agree,
    /// the given cells are consistent, and the next-empty table matches the
    /// original emptiness pattern.
    pub open spec fn base_wf(self) -> bool {
        &&& self.grid.wf()
        &&& self.original@.len() == self.sz()
        &&& givens_ok(self.original@, self.eli(), self.bsi())
        &&& self.index_of_next_empty@.len() == self.sz()
        &&& forall|i: int|
            0 <= i < self.sz() ==> #[trigger] self.index_of_next_empty@[i] as int
                == first_empty_from(self.original@, i + 1)
        &&& self.possibles@.len() == self.sz()
    }

    /// Cell `i` carries a value that counts: it was given, or it holds a
    /// trial value of the current search path.
    pub open spec fn active(self, i: int) -> bool {
        self.original@[i] != 0 || on_stack(self.index_stack@, i)
    }

    /// A value that may still be tried at cell `i`: in range, and not held
    /// by any peer that was given or lies deeper than `i` on the path.
    pub open spec fn value_fits(self, i: int, v: u8) -> bool {
        &&& 1 <= v <= self.eli()
        &&& forall|j: int|
            0 <= j < self.sz() && #[trigger] sees(self.eli(), self.bsi(), i, j)
                && (self.original@[j] != 0 || (on_stack(self.index_stack@, j) && j < i))
                ==> self.grid.cells@[j] != v
    }

    /// Every memoized candidate of cell `i` still fits there, and the memo
    /// is kept strictly descending (so the smallest is popped next).
    pub open spec fn memo_ok(self, i: int) -> bool {
        match self.possibles@[i] {
            Some(l) => (forall|k: int|
                0 <= k < l@.len() ==> self.value_fits(i, #[trigger] l@[k])) && (forall|
                k1: int,
                k2: int,
            |
                0 <= k1 < k2 < l@.len() ==> l@[k1] > l@[k2]),
            None => true,
        }
    }

    /// Every untried candidate memoized at cell `i` is larger than the
    /// trial value the cell currently holds.
    pub open spec fn memo_above(self, i: int) -> bool {
        match self.possibles@[i] {
            Some(l) => forall|k: int|
                0 <= k < l@.len() ==> (#[trigger] l@[k]) > self.grid.cells@[i],
            None => true,
        }
    }

    /// `sol` agrees with the trial values of the first `j` cells of the
    /// search path.
    pub open spec fn stack_prefix_agrees(self, sol: Seq<u8>, j: int) -> bool {
        forall|k: int|
            0 <= k < j ==> sol[(#[trigger] self.index_stack@[k]) as int] == self.grid.cells@[
                self.index_stack@[k] as int]
    }

    /// The memo of the cursor cell still admits `v`, or has not been
    /// computed yet (and so admits anything).
    pub open spec fn memo_admits(self, i: int, v: u8) -> bool {
        match self.possibles@[i] {
            Some(l) => l@.contains(v),
            None => true,
        }
    }

    /// `sol` lies in the part of the search space not yet explored, for
    /// cursor `x`: either at some depth the path can still switch to an
    /// untried candidate that `sol` uses, or `sol` agrees with the whole
    /// path and the cursor cell still admits its value.
    pub open spec fn unexplored(self, sol: Seq<u8>, x: int) -> bool {
        ||| exists|j: int|
            0 <= j < self.index_stack@.len() && #[trigger] self.stack_prefix_agrees(sol, j)
                && (match self.possibles@[self.index_stack@[j] as int] {
                Some(l) => l@.contains(sol[self.index_stack@[j] as int]),
                None => false,
            })
        ||| (self.stack_prefix_agrees(sol, self.index_stack@.len() as int) && (x >= self.sz()
            || self.memo_admits(x, sol[x])))
    }

    /// The invariant of a running search whose cursor is `x`: the stack
    /// holds exactly the originally-empty cells below the cursor, in order;
    /// the givens are untouched; inactive empty cells (except possibly the
    /// cursor itself) are clear; the active cells are consistent; and memos
    /// exist exactly on the path (plus possibly the cursor) and hold only
    /// values that fit.
    pub open spec fn search_inv(self, x: int) -> bool {
        &&& 0 <= x <= self.sz()
        &&& (x < self.sz() ==> self.original@[x] == 0)
        &&& forall|k: int|
            0 <= k < self.index_stack@.len() ==> (#[trigger] self.index_stack@[k] as int) < x
                && self.original@[self.index_stack@[k] as int] == 0
        &&& forall|k1: int, k2: int|
            0 <= k1 < k2 < self.index_stack@.len() ==> (#[trigger] self.index_stack@[k1] as int)
                < (#[trigger] self.index_stack@[k2] as int)
        &&& forall|j: int|
            0 <= j < x && #[trigger] self.original@[j] == 0 ==> on_stack(self.index_stack@, j)
        &&& forall|i: int|
            0 <= i < self.sz() && #[trigger] self.original@[i] != 0 ==> self.grid.cells@[i]
                == self.original@[i]
        &&& forall|i: int|
            0 <= i < self.sz() && #[trigger] self.original@[i] == 0 && !on_stack(
                self.index_stack@,
                i,
            ) && i != x ==> self.grid.cells@[i] == 0
        &&& forall|i: int|
            0 <= i < self.sz() && #[trigger] self.active(i) ==> 1 <= self.grid.cells@[i]
                <= self.eli()
        &&& forall|i: int, j: int|
            0 <= i < self.sz() && 0 <= j < self.sz() && self.active(i) && self.active(j)
                && #[trigger] sees(self.eli(), self.bsi(), i, j) ==> self.grid.cells@[i]
                != self.grid.cells@[j]
        &&& forall|i: int|
            0 <= i < self.sz() && on_stack(self.index_stack@, i) ==> (
            #[trigger] self.possibles@[i]) is Some
        &&& forall|i: int|
            0 <= i < self.sz() && (#[trigger] self.possibles@[i]) is Some ==> (on_stack(
                self.index_stack@,
                i,
            ) || i == x)
        &&& forall|i: int| 0 <= i < self.sz() ==> self.memo_ok(i)
        &&& forall|i: int|
            0 <= i < self.sz() && on_stack(self.index_stack@, i) ==> #[trigger] self.memo_above(i)
        &&& forall|sol: Seq<u8>|
            #[trigger] is_solution(sol, self.original@, self.eli(), self.bsi())
                ==> self.emitted@.contains(sol) || self.unexplored(sol, x)
        &&& forall|sol: Seq<u8>| #[trigger] self.emitted@.contains(sol) ==> !self.unexplored(sol, x)
    }

    /// The full invariant, tied to the cursor field.  An exhausted solver
    /// of a nonempty grid has handed out every solution there is.
    pub open spec fn wf(self) -> bool {
        &&& self.base_wf()
        &&& match self.next_index {
            None => self.sz() == 0 || (forall|sol: Seq<u8>|
                #[trigger] is_solution(sol, self.original@, self.eli(), self.bsi())
                    ==> self.emitted@.contains(sol)),
            Some(x) => self.search_inv(x as int),
        }
    }

    /// The state `solutions` hands out for a grid with these cells: the
    /// untouched grid, an empty path, no memos, and the cursor at the first
    /// empty cell (absent for a grid of no cells).
    pub open spec fn is_initial_for(self, g: SudokuGrid) -> bool {
        &&& self.grid.cells@ == g.cells@
        &&& self.grid.elements == g.elements
        &&& self.grid.boxsize == g.boxsize
        &&& self.grid.size == g.size
        &&& self.original@ == g.cells@
        &&& self.emitted@ == Set::<Seq<u8>>::empty()
        &&& self.index_stack@.len() == 0
        &&& forall|i: int| 0 <= i < self.possibles@.len() ==> (#[trigger] self.possibles@[i]) is None
        &&& if g.cells@.len() == 0 {
            self.next_index is None
        } else {
            self.next_index matches Some(x) && x as int == first_empty_from(g.cells@, 0)
        }
    }

    /// Builds the search state for `grid`: precomputes, for every cell, the
    /// next originally-empty cell after it, and points the cursor at the
    /// first empty cell.  The grid must already have passed the pre-flight
    /// check of `solutions`.
    pub fn new(grid: SudokuGrid) -> (s: SudokuSolver)
        requires
            grid.wf(),
            givens_ok(grid.cells@, grid.elements as int, grid.boxsize as int),
        ensures
            s.wf(),
            s.is_initial_for(grid),
    {
        let ghost orig = grid.cells@;
        let size = grid.size;
        let mut index_of_next_empty = fill_usize(size, size);
        let mut ne: usize = size;
        let mut i: usize = size;
        proof {
            assert(first_empty_from(orig, size as int) == size as int);
        }
        while i > 0
            invariant
                grid.wf(),
                orig == grid.cells@,
                size == grid.size,
                i <= size,
                index_of_next_empty@.len() == size,
                ne as int == first_empty_from(orig, i as int),
                forall|k: int|
                    i <= k < size ==> #[trigger] index_of_next_empty@[k] as int
                        == first_empty_from(orig, k + 1),
            decreases i,
        {
            i = i - 1;
            index_of_next_empty[i] = ne;
            if grid.cells[i] == 0 {
                ne = i;
            }
        }
        let index_stack: Vec<usize> = Vec::new();
        let mut next_index: Option<usize> = None;
        if grid.cells.len() > 0 {
            if grid.cells[0] == 0 {
                next_index = Some(0);
            } else {
                next_index = Some(index_of_next_empty[0]);
            }
        }
        let possibles = fill_none(size);
        let s = SudokuSolver {
            grid,
            next_index,
            index_stack,
            index_of_next_empty,
            possibles,
            original: Ghost(orig),
            emitted: Ghost(Set::empty()),
        };
        proof {
            lemma_givens_consistent(orig, s.eli(), s.bsi());
            if size > 0 {
                let x = next_index->0 as int;
                assert(x == first_empty_from(orig, 0));
                lemma_first_empty_from(orig, 0);
                assert forall|j: int| 0 <= j < x && #[trigger] orig[j] == 0 implies on_stack(
                    s.index_stack@,
                    j,
                ) by {}
                assert forall|sol: Seq<u8>|
                    #[trigger] is_solution(sol, s.original@, s.eli(), s.bsi()) implies s
                    .emitted@.contains(sol) || s.unexplored(sol, x) by {
                    assert(s.stack_prefix_agrees(sol, 0));
                }
                assert(s.search_inv(x));
            }
        }
        s
    }
}

/// A solution that honors the givens and agrees with every trial value of
/// the path must use one of the cursor cell's current candidates: any peer
/// value it could clash with belongs to a given or a path cell, where the
/// solution repeats it, contradicting the solution's own consistency.
proof fn lemma_agreeing_solution_is_candidate(s: SudokuSolver, sol: Seq<u8>, x: int)
    requires
        s.base_wf(),
        s.search_inv(x),
        0 <= x < s.sz(),
        is_solution(sol, s.original@, s.eli(), s.bsi()),
        s.stack_prefix_agrees(sol, s.index_stack@.len() as int),
    ensures
        is_candidate(s.grid.cells@, s.eli(), s.bsi(), x, sol[x]),
{
    let el = s.eli();
    let bs = s.bsi();
    let cells = s.grid.cells@;
    assert(1 <= sol[x] <= el);
    if blocked(cells, el, bs, x, sol[x]) {
        let j = choose|j: int|
            0 <= j < cells.len() && sees(el, bs, x, j) && #[trigger] cells[j] == sol[x];
        assert(cells[j] != 0);
        if s.original@[j] != 0 {
            assert(cells[j] == s.original@[j]);
            assert(sol[j] == s.original@[j]);
        } else {
            assert(on_stack(s.index_stack@, j));
            let k = choose|k: int|
                0 <= k < s.index_stack@.len() && #[trigger] s.index_stack@[k] as int == j;
            assert(sol[j] == cells[j]);
        }
        assert(sol[x] != sol[j]);
        assert(false);
    }
}

/// A sequence and its reverse hold the same values.
proof fn lemma_reverse_contains(a: Seq<u8>, b: Seq<u8>)
    requires
        b.len() == a.len(),
        forall|k: int| 0 <= k < a.len() ==> b[k] == a[a.len() - 1 - k],
    ensures
        forall|v: u8| a.contains(v) ==> b.contains(v),
        forall|v: u8| b.contains(v) ==> a.contains(v),
{
    assert forall|v: u8| a.contains(v) implies b.contains(v) by {
        let i = choose|i: int| 0 <= i < a.len() && a[i] == v;
        assert(b[a.len() - 1 - i] == v);
    }
    assert forall|v: u8| b.contains(v) implies a.contains(v) by {
        let i = choose|i: int| 0 <= i < b.len() && b[i] == v;
        assert(a[a.len() - 1 - i] == v);
    }
}

impl SudokuSolver {
    /// The cursor as an integer: the cell to branch on, the grid size and
    /// beyond for a complete working grid, or below zero for an exhausted
    /// search.
    pub open spec fn cursor(self) -> int {
        match self.next_index {
            None => -1,
            Some(x) => x as int,
        }
    }

    /// The working grid is a complete solution; hand out a snapshot and
    /// move the cursor back to the deepest choice point, or end the search
    /// if there is none.
    fn emit_solution(&mut self) -> (r: SudokuGrid)
        requires
            old(self).base_wf(),
            old(self).search_inv(old(self).sz()),
        ensures
            final(self).wf(),
            final(self).base_wf(),
            final(self).original@ == old(self).original@,
            final(self).grid == old(self).grid,
            r.wf(),
            r.elements == old(self).grid.elements,
            r.boxsize == old(self).grid.boxsize,
            r.cells@ == old(self).grid.cells@,
            is_solution(r.cells@, old(self).original@, old(self).eli(), old(self).bsi()),
            !old(self).emitted@.contains(old(self).grid.cells@),
            final(self).emitted@ == old(self).emitted@.insert(old(self).grid.cells@),
            forall|sol: Seq<u8>|
                #[trigger] is_solution(sol, old(self).original@, old(self).eli(), old(self).bsi())
                    && !final(self).emitted@.contains(sol) ==> lex_before(
                    old(self).grid.cells@,
                    sol,
                ),
            old(self).index_stack@.len() == 0 ==> final(self).cursor() < 0,
            old(self).index_stack@.len() > 0 ==> final(self).cursor() == old(
                self,
            ).index_stack@.last() as int && final(self).index_stack@ == old(
                self,
            ).index_stack@.drop_last(),
    {
        proof {
            let s = *old(self);
            let sz = s.sz();
            assert forall|i: int| 0 <= i < sz implies s.active(i) by {
                if s.original@[i] == 0 {
                    assert(on_stack(s.index_stack@, i));
                }
            }
            assert forall|i: int| 0 <= i < sz implies 1 <= #[trigger] s.grid.cells@[i]
                <= s.eli() by {
                assert(s.active(i));
            }
            assert forall|i: int, j: int|
                0 <= i < sz && 0 <= j < sz && sees(s.eli(), s.bsi(), i, j) implies s.grid.cells@[i]
                != s.grid.cells@[j] by {
                assert(s.active(i));
                assert(s.active(j));
            }
            assert(is_solution(s.grid.cells@, s.original@, s.eli(), s.bsi()));
            // a solution that agrees with the whole path is this very grid
            assert forall|sol: Seq<u8>|
                #[trigger] is_solution(sol, s.original@, s.eli(), s.bsi())
                    && s.stack_prefix_agrees(sol, s.index_stack@.len() as int) implies sol
                == s.grid.cells@ by {
                assert forall|i: int| 0 <= i < sz implies sol[i] == s.grid.cells@[i] by {
                    if s.original@[i] == 0 {
                        assert(on_stack(s.index_stack@, i));
                        let k = choose|k: int|
                            0 <= k < s.index_stack@.len() && #[trigger] s.index_stack@[k] as int
                                == i;
                    }
                }
                assert(sol =~= s.grid.cells@);
            }
            // the grid itself was still unexplored, so never yet emitted
            assert(s.stack_prefix_agrees(s.grid.cells@, s.index_stack@.len() as int));
            assert(s.unexplored(s.grid.cells@, sz));
            assert(!s.emitted@.contains(s.grid.cells@));
        }
        let sol = self.grid.clone();
        self.emitted = Ghost(self.emitted@.insert(self.grid.cells@));
        let popped = self.index_stack.pop();
        self.next_index = popped;
        proof {
            let s0 = *old(self);
            let s1 = *self;
            let stack0 = s0.index_stack@;
            if stack0.len() > 0 {
                let ni = stack0.last() as int;
                lemma_on_stack_drop(stack0);
                assert forall|j: int|
                    0 <= j < ni && #[trigger] s1.original@[j] == 0 implies on_stack(
                    s1.index_stack@,
                    j,
                ) by {
                    assert(on_stack(stack0, j));
                    let k = choose|k: int|
                        0 <= k < stack0.len() && #[trigger] stack0[k] as int == j;
                    assert(k < stack0.len() - 1);
                    assert(s1.index_stack@[k] as int == j);
                }
                assert forall|i: int|
                    0 <= i < s1.sz() && #[trigger] s1.active(i) implies 1 <= s1.grid.cells@[i]
                    <= s1.eli() by {
                    assert(s0.active(i));
                }
                assert forall|i: int, j: int|
                    0 <= i < s1.sz() && 0 <= j < s1.sz() && s1.active(i) && s1.active(j)
                        && #[trigger] sees(s1.eli(), s1.bsi(), i, j) implies s1.grid.cells@[i]
                    != s1.grid.cells@[j] by {
                    assert(s0.active(i) && s0.active(j));
                }
                assert forall|i: int|
                    0 <= i < s1.sz() && on_stack(s1.index_stack@, i) implies (
                #[trigger] s1.possibles@[i]) is Some by {
                    assert(on_stack(stack0, i));
                }
                assert forall|i: int| 0 <= i < s1.sz() implies s1.memo_ok(i) by {
                    assert(s0.memo_ok(i));
                    if s1.possibles@[i] is Some {
                        let l = s1.possibles@[i]->0;
                        assert forall|k: int|
                            0 <= k < l@.len() implies s1.value_fits(i, #[trigger] l@[k]) by {
                            assert(s0.value_fits(i, l@[k]));
                            assert forall|j: int|
                                0 <= j < s1.sz() && #[trigger] sees(s1.eli(), s1.bsi(), i, j) && (
                                s1.original@[j] != 0 || (on_stack(s1.index_stack@, j) && j
                                    < i)) implies s1.grid.cells@[j] != l@[k] by {
                                if on_stack(s1.index_stack@, j) {
                                    assert(on_stack(stack0, j));
                                }
                            }
                        }
                    }
                }
                // memos still sit above the trial values of their cells
                assert forall|i: int|
                    0 <= i < s1.sz() && on_stack(s1.index_stack@, i) implies #[trigger] s1
                    .memo_above(i) by {
                    assert(on_stack(stack0, i));
                    assert(s0.memo_above(i));
                }
                // prefix agreement means the same thing before and after the pop
                assert forall|sol: Seq<u8>, j: int|
                    0 <= j <= s1.index_stack@.len() implies (#[trigger] s1.stack_prefix_agrees(
                        sol,
                        j,
                    ) <==> s0.stack_prefix_agrees(sol, j)) by {
                    assert forall|k: int| 0 <= k < j implies s1.index_stack@[k] == stack0[k] by {}
                }
                // completeness: every solution is emitted or still ahead
                assert forall|sol: Seq<u8>|
                    #[trigger] is_solution(sol, s1.original@, s1.eli(), s1.bsi()) implies s1
                    .emitted@.contains(sol) || s1.unexplored(sol, ni) by {
                    if !s0.emitted@.contains(sol) {
                        assert(s0.unexplored(sol, s0.sz()));
                        if exists|j: int|
                            0 <= j < stack0.len() && #[trigger] s0.stack_prefix_agrees(sol, j) && (
                            match s0.possibles@[stack0[j] as int] {
                                Some(l) => l@.contains(sol[stack0[j] as int]),
                                None => false,
                            }) {
                            let j = choose|j: int|
                                0 <= j < stack0.len() && #[trigger] s0.stack_prefix_agrees(sol, j)
                                    && (match s0.possibles@[stack0[j] as int] {
                                    Some(l) => l@.contains(sol[stack0[j] as int]),
                                    None => false,
                                });
                            if j < stack0.len() - 1 {
                                assert(s1.stack_prefix_agrees(sol, j));
                                assert(s1.index_stack@[j] == stack0[j]);
                                assert(s1.unexplored(sol, ni));
                            } else {
                                assert(s1.stack_prefix_agrees(
                                    sol,
                                    s1.index_stack@.len() as int,
                                ));
                                assert(s1.memo_admits(ni, sol[ni]));
                                assert(s1.unexplored(sol, ni));
                            }
                        } else {
                            assert(s0.stack_prefix_agrees(sol, stack0.len() as int));
                            assert(sol == s0.grid.cells@);
                            assert(s1.emitted@.contains(sol));
                        }
                    }
                }
                // nothing already emitted is still ahead
                assert forall|sol: Seq<u8>| #[trigger] s1.emitted@.contains(sol) implies !s1
                    .unexplored(sol, ni) by {
                    if s1.unexplored(sol, ni) {
                        if sol == s0.grid.cells@ {
                            // its value at every path cell sits below the untried ones
                            if exists|j: int|
                                0 <= j < s1.index_stack@.len() && #[trigger] s1.stack_prefix_agrees(
                                    sol,
                                    j,
                                ) && (match s1.possibles@[s1.index_stack@[j] as int] {
                                    Some(l) => l@.contains(sol[s1.index_stack@[j] as int]),
                                    None => false,
                                }) {
                                let j = choose|j: int|
                                    0 <= j < s1.index_stack@.len()
                                        && #[trigger] s1.stack_prefix_agrees(sol, j) && (match s1
                                        .possibles@[s1.index_stack@[j] as int] {
                                        Some(l) => l@.contains(sol[s1.index_stack@[j] as int]),
                                        None => false,
                                    });
                                let c = s1.index_stack@[j] as int;
                                assert(on_stack(stack0, c));
                                assert(s0.memo_above(c));
                                let l = s1.possibles@[c]->0;
                                let ki = choose|ki: int| 0 <= ki < l@.len() && l@[ki] == sol[c];
                                assert(false);
                            } else {
                                assert(s1.memo_admits(ni, sol[ni]));
                                assert(s0.memo_above(ni));
                                let l = s1.possibles@[ni]->0;
                                let ki = choose|ki: int| 0 <= ki < l@.len() && l@[ki] == sol[ni];
                                assert(false);
                            }
                        } else {
                            assert(s0.emitted@.contains(sol));
                            // map the unexplored place back to the old state
                            if exists|j: int|
                                0 <= j < s1.index_stack@.len() && #[trigger] s1.stack_prefix_agrees(
                                    sol,
                                    j,
                                ) && (match s1.possibles@[s1.index_stack@[j] as int] {
                                    Some(l) => l@.contains(sol[s1.index_stack@[j] as int]),
                                    None => false,
                                }) {
                                let j = choose|j: int|
                                    0 <= j < s1.index_stack@.len()
                                        && #[trigger] s1.stack_prefix_agrees(sol, j) && (match s1
                                        .possibles@[s1.index_stack@[j] as int] {
                                        Some(l) => l@.contains(sol[s1.index_stack@[j] as int]),
                                        None => false,
                                    });
                                assert(s0.stack_prefix_agrees(sol, j));
                                assert(stack0[j] == s1.index_stack@[j]);
                                assert(s0.unexplored(sol, s0.sz()));
                            } else {
                                assert(s1.stack_prefix_agrees(
                                    sol,
                                    s1.index_stack@.len() as int,
                                ));
                                assert(s1.memo_admits(ni, sol[ni]));
                                assert(s0.stack_prefix_agrees(sol, stack0.len() - 1));
                                assert(stack0[stack0.len() - 1] as int == ni);
                                assert(s0.unexplored(sol, s0.sz()));
                            }
                            assert(false);
                        }
                    }
                }
                assert(s1.search_inv(ni));
                // the grid just handed out precedes, in row-major order,
                // every solution that is still to come: such a solution
                // diverges from the path at a cell whose untried candidates
                // all lie above the value the grid holds there
                assert forall|sol: Seq<u8>|
                    #[trigger] is_solution(sol, s1.original@, s1.eli(), s1.bsi()) && !s1
                    .emitted@.contains(sol) implies lex_before(s0.grid.cells@, sol) by {
                    assert(s1.unexplored(sol, ni));
                    let cells = s0.grid.cells@;
                    if exists|j: int|
                        0 <= j < s1.index_stack@.len() && #[trigger] s1.stack_prefix_agrees(
                            sol,
                            j,
                        ) && (match s1.possibles@[s1.index_stack@[j] as int] {
                            Some(l2) => l2@.contains(sol[s1.index_stack@[j] as int]),
                            None => false,
                        }) {
                        let j = choose|j: int|
                            0 <= j < s1.index_stack@.len() && #[trigger] s1.stack_prefix_agrees(
                                sol,
                                j,
                            ) && (match s1.possibles@[s1.index_stack@[j] as int] {
                                Some(l2) => l2@.contains(sol[s1.index_stack@[j] as int]),
                                None => false,
                            });
                        let c = s1.index_stack@[j] as int;
                        assert(stack0[j] as int == c);
                        assert(on_stack(stack0, c));
                        assert forall|k: int| 0 <= k < c implies cells[k] == sol[k] by {
                            if s0.original@[k] == 0 {
                                assert(on_stack(stack0, k));
                                let kk = choose|kk: int|
                                    0 <= kk < stack0.len() && #[trigger] stack0[kk] as int == k;
                                assert(kk < j);
                                assert(s1.index_stack@[kk] as int == k);
                            }
                        }
                        assert(agrees_below(cells, sol, c));
                        assert(s0.memo_above(c));
                        let l2 = s0.possibles@[c]->0;
                        let ki = choose|ki: int| 0 <= ki < l2@.len() && l2@[ki] == sol[c];
                        assert(cells[c] < sol[c]);
                        assert(lex_before(cells, sol));
                    } else {
                        let c = ni;
                        let j = s1.index_stack@.len() as int;
                        assert(s1.stack_prefix_agrees(sol, j));
                        assert(s1.memo_admits(c, sol[c]));
                        assert(s1.possibles@[c] is Some);
                        assert(on_stack(stack0, c));
                        assert forall|k: int| 0 <= k < c implies cells[k] == sol[k] by {
                            if s0.original@[k] == 0 {
                                assert(on_stack(stack0, k));
                                let kk = choose|kk: int|
                                    0 <= kk < stack0.len() && #[trigger] stack0[kk] as int == k;
                                assert(kk < stack0.len() - 1);
                                assert(s1.index_stack@[kk] as int == k);
                            }
                        }
                        assert(agrees_below(cells, sol, c));
                        assert(s0.memo_above(c));
                        let l2 = s0.possibles@[c]->0;
                        let ki = choose|ki: int| 0 <= ki < l2@.len() && l2@[ki] == sol[c];
                        assert(cells[c] < sol[c]);
                        assert(lex_before(cells, sol));
                    }
                }
            } else {
                // the path is empty: the one solution of this fully given
                // grid has just been emitted, and the search is over
                assert forall|sol: Seq<u8>|
                    #[trigger] is_solution(sol, s1.original@, s1.eli(), s1.bsi()) implies s1
                    .emitted@.contains(sol) by {
                    if !s0.emitted@.contains(sol) {
                        assert(s0.unexplored(sol, s0.sz()));
                        assert(s0.stack_prefix_agrees(sol, 0));
                        assert(sol == s0.grid.cells@);
                    }
                }
            }
        }
        sol
    }
}

/// A value that fits a cell keeps fitting when only the cell `xi` (an
/// originally-empty cell at or past the cell itself) changes its content or
/// its stack membership.
proof fn lemma_value_fits_transfer(s0: SudokuSolver, s1: SudokuSolver, i: int, v: u8, xi: int)
    requires
        s0.value_fits(i, v),
        s1.eli() == s0.eli(),
        s1.bsi() == s0.bsi(),
        s1.sz() == s0.sz(),
        s1.original@ == s0.original@,
        s1.original@.len() == s1.sz(),
        0 <= xi < s0.sz(),
        s0.original@[xi] == 0,
        i <= xi,
        forall|j: int| 0 <= j < s0.sz() && j != xi ==> s1.grid.cells@[j] == s0.grid.cells@[j],
        forall|j: int|
            #[trigger] on_stack(s1.index_stack@, j) && j != xi ==> on_stack(s0.index_stack@, j),
    ensures
        s1.value_fits(i, v),
{
    assert forall|j: int|
        0 <= j < s1.sz() && #[trigger] sees(s1.eli(), s1.bsi(), i, j) && (s1.original@[j] != 0 || (
        on_stack(s1.index_stack@, j) && j < i)) implies s1.grid.cells@[j] != v by {
        assert(j != xi);
    }
}

impl SudokuSolver {
    /// Produces the next solution, or nothing when the search space is
    /// exhausted; after that, every further call produces nothing.  Each
    /// call performs bounded work: it either resumes from the last choice
    /// point and searches on with memoized candidate lists and explicit
    /// backtracking until one more completed grid is found, or returns an
    /// independent snapshot of an already-completed working grid.  Every
    /// grid handed out is a valid solution of the original puzzle, no grid
    /// is ever handed out twice, each grid handed out precedes every
    /// solution still to come in row-major lexicographic order (candidates
    /// are tried smallest first), and by the time the search reports
    /// exhaustion on a nonempty grid, every solution there is has been
    /// handed out.
    pub fn next(&mut self) -> (r: Option<SudokuGrid>)
        requires
            old(self).wf(),
        ensures
            final(self).wf(),
            final(self).original@ == old(self).original@,
            final(self).grid.elements == old(self).grid.elements,
            final(self).grid.boxsize == old(self).grid.boxsize,
            final(self).grid.size == old(self).grid.size,
            r matches Some(g) ==> g.wf() && g.elements == old(self).grid.elements && is_solution(
                g.cells@,
                old(self).original@,
                old(self).eli(),
                old(self).bsi(),
            ),
            old(self).cursor() < 0 ==> r is None && final(self).cursor() < 0 && final(self).grid
                == old(self).grid,
            r is None ==> final(self).cursor() < 0,
            r matches Some(g) ==> !old(self).emitted@.contains(g.cells@) && final(self).emitted@
                == old(self).emitted@.insert(g.cells@),
            r is None ==> final(self).emitted@ == old(self).emitted@,
            r is None && old(self).sz() > 0 ==> forall|sol: Seq<u8>|
                #[trigger] is_solution(sol, old(self).original@, old(self).eli(), old(self).bsi())
                    ==> old(self).emitted@.contains(sol),
            r matches Some(g) ==> forall|sol: Seq<u8>|
                #[trigger] is_solution(sol, old(self).original@, old(self).eli(), old(self).bsi())
                    && !final(self).emitted@.contains(sol) ==> lex_before(g.cells@, sol),
            old(self).cursor() >= old(self).sz() ==> ((r matches Some(g) && g.cells@
                == old(self).grid.cells@) && final(self).grid == old(self).grid
                && (old(self).index_stack@.len() == 0 ==> final(self).cursor() < 0)
                && (old(self).index_stack@.len() > 0
                    ==> final(self).cursor() == old(self).index_stack@.last() as int
                    && final(self).index_stack@ == old(self).index_stack@.drop_last())),
    {
        let x_opt = self.next_index;
        match x_opt {
            None => None,
            Some(x0) => {
                if x0 >= self.grid.size {
                    return Some(self.emit_solution());
                }
                let ghost orig = self.original@;
                let ghost eli = self.eli();
                let ghost bsi = self.bsi();
                let ghost szi = self.sz();
                let mut x = x0;
                while x < self.grid.size
                    invariant
                        self.base_wf(),
                        self.search_inv(x as int),
                        x <= self.grid.size,
                        orig == self.original@,
                        eli == self.eli(),
                        bsi == self.bsi(),
                        szi == self.sz(),
                        self.grid.elements == old(self).grid.elements,
                        self.grid.boxsize == old(self).grid.boxsize,
                        self.grid.size == old(self).grid.size,
                        orig == old(self).original@,
                        self.emitted@ == old(self).emitted@,
                        0 <= old(self).cursor(),
                        old(self).cursor() < old(self).sz(),
                    decreases
                        search_measure(
                            self.index_stack@,
                            self.possibles@,
                            eli,
                            orig,
                            x as int,
                            szi,
                        ),
                        count_memos(self.possibles@),
                {
                    let ghost s0 = *self;
                    let ghost poss0 = self.possibles@;
                    let ghost stack0 = self.index_stack@;
                    let ghost cells0 = self.grid.cells@;
                    let ghost xi = x as int;
                    proof {
                        lemma_stack_measure_nonneg(stack0, poss0, eli, orig);
                        lemma_count_memos_nonneg(poss0);
                        lemma_weight_pos(eli, orig, xi);
                        assert forall|j: int|
                            #[trigger] on_stack(stack0, j) implies 0 <= j < xi by {
                            let k = choose|k: int|
                                0 <= k < stack0.len() && #[trigger] stack0[k] as int == j;
                        }
                    }
                    // Fetch the cell's untried candidates, computing and
                    // memoizing them on the first visit.  The list is kept
                    // largest first, so the smallest is tried next.
                    let mut taken: Option<Vec<u8>> = None;
                    core::mem::swap(&mut taken, &mut self.possibles[x]);
                    let mut lst: Vec<u8>;
                    match taken {
                        Some(l) => {
                            proof {
                                assert(s0.memo_ok(xi));
                            }
                            lst = l;
                        },
                        None => {
                            let asc = self.grid.possibilities(x);
                            lst = reversed(&asc);
                            proof {
                                assert forall|k: int|
                                    0 <= k < lst@.len() implies s0.value_fits(
                                    xi,
                                    #[trigger] lst@[k],
                                ) by {
                                    lemma_candidate_fits(s0, xi, lst@[k]);
                                }
                                assert forall|k1: int, k2: int|
                                    0 <= k1 < k2 < lst@.len() implies lst@[k1] > lst@[k2] by {
                                    assert(lst@[k1] == asc@[asc@.len() - 1 - k1]);
                                    assert(lst@[k2] == asc@[asc@.len() - 1 - k2]);
                                }
                                lemma_reverse_contains(asc@, lst@);
                                assert forall|sol: Seq<u8>|
                                    #[trigger] is_solution(sol, orig, eli, bsi)
                                        && s0.stack_prefix_agrees(
                                        sol,
                                        stack0.len() as int,
                                    ) implies lst@.contains(sol[xi]) by {
                                    lemma_agreeing_solution_is_candidate(s0, sol, xi);
                                    assert(asc@.contains(sol[xi]));
                                }
                            }
                        },
                    }
                    let ghost l_before = lst@;
                    proof {
                        assert forall|k: int|
                            0 <= k < l_before.len() implies s0.value_fits(
                            xi,
                            #[trigger] l_before[k],
                        ) by {}
                        assert(slot_cost(poss0, eli, xi) >= l_before.len() as int);
                        if poss0[xi] is Some {
                            assert(s0.memo_ok(xi));
                        }
                        assert forall|k1: int, k2: int|
                            0 <= k1 < k2 < l_before.len() implies l_before[k1] > l_before[k2] by {}
                        // a solution agreeing with the path uses one of these candidates
                        assert forall|sol: Seq<u8>|
                            #[trigger] is_solution(sol, orig, eli, bsi) && s0.stack_prefix_agrees(
                                sol,
                                stack0.len() as int,
                            ) && s0.memo_admits(xi, sol[xi]) implies l_before.contains(
                            sol[xi],
                        ) by {}
                    }
                    let popped = lst.pop();
                    match popped {
                        Some(p) => {
                            // Try the smallest untried value here and move
                            // on to the next empty cell.
                            self.grid.cells[x] = p;
                            self.possibles[x] = Some(lst);
                            self.index_stack.push(x);
                            let nx = self.index_of_next_empty[x];
                            proof {
                                let s1 = *self;
                                let nxi = nx as int;
                                let stack1 = s1.index_stack@;
                                assert(stack1 == stack0.push(x));
                                assert(s1.possibles@ =~= poss0.update(xi, Some(lst)));
                                assert(s1.grid.cells@ == cells0.update(xi, p));
                                assert(nxi == first_empty_from(orig, xi + 1));
                                lemma_first_empty_from(orig, xi + 1);
                                lemma_on_stack_push(stack0, x);
                                assert(s0.value_fits(xi, p));
                                // the stack lists exactly the empties below the new cursor
                                assert forall|j: int|
                                    0 <= j < nxi && #[trigger] orig[j] == 0 implies on_stack(
                                    stack1,
                                    j,
                                ) by {
                                    if j < xi {
                                        assert(on_stack(stack0, j));
                                    } else if j == xi {
                                        assert(on_stack(stack1, xi));
                                    }
                                }
                                // active cells stay consistent with the new trial value
                                assert forall|i: int|
                                    0 <= i < szi && #[trigger] s1.active(i) implies 1
                                    <= s1.grid.cells@[i] <= eli by {
                                    if i != xi {
                                        assert(s0.active(i));
                                    }
                                }
                                assert forall|i: int, j: int|
                                    0 <= i < szi && 0 <= j < szi && s1.active(i) && s1.active(j)
                                        && #[trigger] sees(eli, bsi, i, j) implies s1.grid.cells@[i]
                                    != s1.grid.cells@[j] by {
                                    if i != xi && j != xi {
                                        assert(s0.active(i) && s0.active(j));
                                        assert(s1.grid.cells@[i] == cells0[i]);
                                        assert(s1.grid.cells@[j] == cells0[j]);
                                    } else if i == xi && j != xi {
                                        assert(s1.original@[j] != 0 || (on_stack(stack0, j) && j
                                            < xi)) by {
                                            if orig[j] == 0 {
                                                assert(on_stack(stack1, j));
                                                assert(on_stack(stack0, j));
                                            }
                                        }
                                        assert(sees(eli, bsi, xi, j));
                                        assert(s0.grid.cells@[j] != p);
                                        assert(s1.grid.cells@[i] == p);
                                        assert(s1.grid.cells@[j] == cells0[j]);
                                    } else if j == xi && i != xi {
                                        assert(s1.original@[i] != 0 || (on_stack(stack0, i) && i
                                            < xi)) by {
                                            if orig[i] == 0 {
                                                assert(on_stack(stack1, i));
                                                assert(on_stack(stack0, i));
                                            }
                                        }
                                        assert(sees(eli, bsi, xi, i));
                                        assert(s0.grid.cells@[i] != p);
                                        assert(s1.grid.cells@[j] == p);
                                        assert(s1.grid.cells@[i] == cells0[i]);
                                    }
                                }
                                // memos still hold only fitting values
                                assert forall|i: int| 0 <= i < szi implies s1.memo_ok(i) by {
                                    if s1.possibles@[i] is Some {
                                        let l2 = s1.possibles@[i]->0;
                                        if i == xi {
                                            assert forall|k: int|
                                                0 <= k < l2@.len() implies s1.value_fits(
                                                i,
                                                #[trigger] l2@[k],
                                            ) by {
                                                assert(l2@[k] == l_before[k]);
                                                assert(s0.value_fits(xi, l_before[k]));
                                                lemma_value_fits_transfer(
                                                    s0,
                                                    s1,
                                                    xi,
                                                    l_before[k],
                                                    xi,
                                                );
                                            }
                                            assert forall|k1: int, k2: int|
                                                0 <= k1 < k2 < l2@.len() implies l2@[k1]
                                                > l2@[k2] by {
                                                assert(l2@[k1] == l_before[k1]);
                                                assert(l2@[k2] == l_before[k2]);
                                            }
                                        } else {
                                            assert(poss0[i] is Some);
                                            assert(s0.memo_ok(i));
                                            assert(on_stack(stack0, i));
                                            assert forall|k: int|
                                                0 <= k < l2@.len() implies s1.value_fits(
                                                i,
                                                #[trigger] l2@[k],
                                            ) by {
                                                assert(s0.value_fits(i, l2@[k]));
                                                lemma_value_fits_transfer(s0, s1, i, l2@[k], xi);
                                            }
                                        }
                                    }
                                }
                                // the new path cell keeps only larger, untried candidates
                                let lrest = s1.possibles@[xi]->0;
                                assert(lrest@ =~= l_before.drop_last());
                                assert(p == l_before[l_before.len() - 1]);
                                assert forall|k: int|
                                    0 <= k < lrest@.len() implies (#[trigger] lrest@[k]) > p by {
                                    assert(lrest@[k] == l_before[k]);
                                }
                                assert forall|i: int|
                                    0 <= i < szi && on_stack(stack1, i) implies #[trigger] s1
                                    .memo_above(i) by {
                                    if i != xi {
                                        assert(on_stack(stack0, i));
                                        assert(s0.memo_above(i));
                                    }
                                }
                                // prefix agreement carries across the step
                                assert forall|sol: Seq<u8>, j: int|
                                    0 <= j <= stack0.len() implies (#[trigger] s1
                                        .stack_prefix_agrees(sol, j) <==> s0.stack_prefix_agrees(
                                        sol,
                                        j,
                                    )) by {
                                    assert forall|k: int|
                                        0 <= k < j implies stack1[k] == stack0[k]
                                            && s1.grid.cells@[(#[trigger] stack0[k]) as int]
                                            == cells0[stack0[k] as int] by {
                                        assert((stack0[k] as int) < xi);
                                    }
                                }
                                // completeness: every solution stays reachable or was emitted
                                assert forall|sol: Seq<u8>|
                                    #[trigger] is_solution(sol, orig, eli, bsi) implies s1
                                    .emitted@.contains(sol) || s1.unexplored(sol, nxi) by {
                                    if !s0.emitted@.contains(sol) {
                                        assert(s0.unexplored(sol, xi));
                                        if exists|j: int|
                                            0 <= j < stack0.len()
                                                && #[trigger] s0.stack_prefix_agrees(sol, j) && (
                                            match poss0[stack0[j] as int] {
                                                Some(l2) => l2@.contains(sol[stack0[j] as int]),
                                                None => false,
                                            }) {
                                            let j = choose|j: int|
                                                0 <= j < stack0.len()
                                                    && #[trigger] s0.stack_prefix_agrees(sol, j)
                                                    && (match poss0[stack0[j] as int] {
                                                    Some(l2) => l2@.contains(
                                                        sol[stack0[j] as int],
                                                    ),
                                                    None => false,
                                                });
                                            assert(s1.stack_prefix_agrees(sol, j));
                                            assert(stack1[j] == stack0[j]);
                                            assert((stack0[j] as int) < xi);
                                            assert(s1.possibles@[stack0[j] as int] == poss0[
                                                stack0[j] as int]);
                                            assert(s1.unexplored(sol, nxi));
                                        } else {
                                            assert(s0.stack_prefix_agrees(
                                                sol,
                                                stack0.len() as int,
                                            ));
                                            assert(s0.memo_admits(xi, sol[xi]));
                                            assert(l_before.contains(sol[xi]));
                                            let ki = choose|ki: int|
                                                0 <= ki < l_before.len() && l_before[ki]
                                                    == sol[xi];
                                            if ki < l_before.len() - 1 {
                                                assert(s1.stack_prefix_agrees(
                                                    sol,
                                                    stack0.len() as int,
                                                ));
                                                assert(stack1[stack0.len() as int] == x);
                                                assert(lrest@[ki] == sol[xi]);
                                                assert(lrest@.contains(sol[xi]));
                                                assert(s1.unexplored(sol, nxi));
                                            } else {
                                                assert(sol[xi] == p);
                                                assert forall|k: int|
                                                    0 <= k < stack1.len() implies sol[(
                                                #[trigger] stack1[k]) as int] == s1.grid.cells@[
                                                    stack1[k] as int] by {
                                                    if k < stack0.len() {
                                                        assert(stack1[k] == stack0[k]);
                                                        assert((stack0[k] as int) < xi);
                                                    } else {
                                                        assert(stack1[k] == x);
                                                    }
                                                }
                                                assert(s1.stack_prefix_agrees(
                                                    sol,
                                                    stack1.len() as int,
                                                ));
                                                if nxi < szi {
                                                    assert(s1.possibles@[nxi] is None);
                                                }
                                                assert(s1.unexplored(sol, nxi));
                                            }
                                        }
                                    }
                                }
                                // nothing already emitted is reachable again
                                assert forall|sol: Seq<u8>| #[trigger] s1.emitted@.contains(
                                    sol,
                                ) implies !s1.unexplored(sol, nxi) by {
                                    if s1.unexplored(sol, nxi) {
                                        assert(s0.emitted@.contains(sol));
                                        if exists|j: int|
                                            0 <= j < stack1.len()
                                                && #[trigger] s1.stack_prefix_agrees(sol, j) && (
                                            match s1.possibles@[stack1[j] as int] {
                                                Some(l2) => l2@.contains(sol[stack1[j] as int]),
                                                None => false,
                                            }) {
                                            let j = choose|j: int|
                                                0 <= j < stack1.len()
                                                    && #[trigger] s1.stack_prefix_agrees(sol, j)
                                                    && (match s1.possibles@[stack1[j] as int] {
                                                    Some(l2) => l2@.contains(
                                                        sol[stack1[j] as int],
                                                    ),
                                                    None => false,
                                                });
                                            if j < stack0.len() {
                                                assert(s0.stack_prefix_agrees(sol, j));
                                                assert(stack1[j] == stack0[j]);
                                                assert((stack0[j] as int) < xi);
                                                assert(s1.possibles@[stack0[j] as int] == poss0[
                                                    stack0[j] as int]);
                                                assert(s0.unexplored(sol, xi));
                                            } else {
                                                assert(stack1[j] == x);
                                                assert(s0.stack_prefix_agrees(
                                                    sol,
                                                    stack0.len() as int,
                                                ));
                                                assert(lrest@.contains(sol[xi]));
                                                let ki = choose|ki: int|
                                                    0 <= ki < lrest@.len() && lrest@[ki]
                                                        == sol[xi];
                                                assert(l_before[ki] == sol[xi]);
                                                assert(l_before.contains(sol[xi]));
                                                assert(s0.unexplored(sol, xi));
                                            }
                                        } else {
                                            assert(s1.stack_prefix_agrees(
                                                sol,
                                                stack1.len() as int,
                                            ));
                                            assert(stack1[stack0.len() as int] == x);
                                            assert(sol[xi] == s1.grid.cells@[xi]);
                                            assert(sol[xi] == p);
                                            assert(l_before[l_before.len() - 1] == sol[xi]);
                                            assert(l_before.contains(sol[xi]));
                                            assert(s0.stack_prefix_agrees(
                                                sol,
                                                stack0.len() as int,
                                            ));
                                            assert(s0.unexplored(sol, xi));
                                        }
                                        assert(!s0.unexplored(sol, xi));
                                        assert(false);
                                    }
                                }
                                assert(s1.search_inv(nxi));
                                // the measure shrinks
                                let m0 = search_measure(stack0, poss0, eli, orig, xi, szi);
                                let m1 = search_measure(
                                    stack1,
                                    s1.possibles@,
                                    eli,
                                    orig,
                                    nxi,
                                    szi,
                                );
                                let w_x = weight(eli, orig, xi);
                                let cost0 = slot_cost(poss0, eli, xi);
                                let lfull = l_before.len() as int;
                                let sm0 = stack_measure(stack0, poss0, eli, orig);
                                lemma_stack_measure_update(
                                    stack0,
                                    poss0,
                                    s1.possibles@,
                                    eli,
                                    orig,
                                    xi,
                                );
                                lemma_stack_measure_push(stack0, s1.possibles@, eli, orig, x);
                                assert(stack_measure(stack1, s1.possibles@, eli, orig) == sm0 + (
                                lfull - 1) * w_x);
                                if nx < self.grid.size {
                                    assert(poss0[nxi] is None);
                                    assert(s1.possibles@[nxi] is None);
                                    lemma_weight_gap(eli, orig, xi, nxi);
                                    let w_nx = weight(eli, orig, nxi);
                                    assert(m1 == sm0 + (lfull - 1) * w_x + (eli + 1) * w_nx);
                                    assert(m1 < m0) by (nonlinear_arith)
                                        requires
                                            m1 == sm0 + (lfull - 1) * w_x + (eli + 1) * w_nx,
                                            m0 == sm0 + cost0 * w_x,
                                            w_x >= (eli + 2) * w_nx,
                                            w_nx >= 1,
                                            cost0 >= lfull,
                                            lfull >= 1,
                                            0 <= eli,
                                    ;
                                } else {
                                    assert(m1 == sm0 + (lfull - 1) * w_x);
                                    assert(m1 < m0) by (nonlinear_arith)
                                        requires
                                            m1 == sm0 + (lfull - 1) * w_x,
                                            m0 == sm0 + cost0 * w_x,
                                            w_x >= 1,
                                            cost0 >= lfull,
                                            lfull >= 1,
                                    ;
                                }
                            }
                            x = nx;
                        },
                        None => {
                            // All candidates tried and discarded: clear the
                            // cell, forget its memo, and back-track.
                            self.grid.cells[x] = 0;
                            let popped2 = self.index_stack.pop();
                            match popped2 {
                                None => {
                                    // No choice point is left: the search is
                                    // exhausted for good, and every solution
                                    // has been handed out.
                                    self.next_index = None;
                                    proof {
                                        let s1 = *self;
                                        assert forall|sol: Seq<u8>|
                                            #[trigger] is_solution(
                                                sol,
                                                s1.original@,
                                                s1.eli(),
                                                s1.bsi(),
                                            ) implies s1.emitted@.contains(sol) by {
                                            if !s0.emitted@.contains(sol) {
                                                assert(s0.unexplored(sol, xi));
                                                assert(s0.stack_prefix_agrees(
                                                    sol,
                                                    stack0.len() as int,
                                                ));
                                                assert(s0.memo_admits(xi, sol[xi]));
                                                assert(l_before.contains(sol[xi]));
                                                assert(false);
                                            }
                                        }
                                    }
                                    return None;
                                },
                                Some(ni) => {
                                    proof {
                                        let s1 = *self;
                                        let nii = ni as int;
                                        let stack1 = s1.index_stack@;
                                        assert(stack1 =~= stack0.drop_last());
                                        assert(ni == stack0.last());
                                        assert(s1.possibles@ == poss0.update(xi, None));
                                        assert(s1.grid.cells@ == cells0.update(xi, 0));
                                        lemma_on_stack_drop(stack0);
                                        assert(on_stack(stack0, nii));
                                        assert(0 <= nii < xi);
                                        assert(orig[nii] == 0);
                                        // stack entries stay below the new cursor
                                        assert forall|k: int|
                                            0 <= k < stack1.len() implies (
                                        #[trigger] stack1[k] as int) < nii by {
                                            assert((stack0[k] as int) < (stack0[stack0.len()
                                                - 1] as int));
                                        }
                                        assert forall|j: int|
                                            0 <= j < nii && #[trigger] orig[j]
                                                == 0 implies on_stack(stack1, j) by {
                                            assert(on_stack(stack0, j));
                                            let k = choose|k: int|
                                                0 <= k < stack0.len() && #[trigger] stack0[k] as int
                                                    == j;
                                            assert(k < stack0.len() - 1);
                                            assert(stack1[k] as int == j);
                                        }
                                        assert forall|i: int|
                                            0 <= i < szi && #[trigger] s1.active(i) implies 1
                                            <= s1.grid.cells@[i] <= eli by {
                                            if on_stack(stack1, i) {
                                                assert(on_stack(stack0, i));
                                                assert(i < nii + 1);
                                            }
                                            assert(s0.active(i));
                                            assert(i != xi);
                                        }
                                        assert forall|i: int, j: int|
                                            0 <= i < szi && 0 <= j < szi && s1.active(i)
                                                && s1.active(j) && #[trigger] sees(
                                                eli,
                                                bsi,
                                                i,
                                                j,
                                            ) implies s1.grid.cells@[i] != s1.grid.cells@[j] by {
                                            if on_stack(stack1, i) {
                                                assert(on_stack(stack0, i));
                                            }
                                            if on_stack(stack1, j) {
                                                assert(on_stack(stack0, j));
                                            }
                                            assert(s0.active(i) && s0.active(j));
                                            assert(i != xi && j != xi);
                                        }
                                        assert forall|i: int|
                                            0 <= i < szi && on_stack(stack1, i) implies (
                                        #[trigger] s1.possibles@[i]) is Some by {
                                            assert(on_stack(stack0, i));
                                            assert(i != xi);
                                        }
                                        assert forall|i: int| 0 <= i < szi implies s1.memo_ok(
                                            i,
                                        ) by {
                                            if s1.possibles@[i] is Some {
                                                assert(i != xi);
                                                assert(poss0[i] is Some);
                                                assert(s0.memo_ok(i));
                                                assert(on_stack(stack0, i) || i == xi);
                                                assert(i <= xi);
                                                let l2 = s1.possibles@[i]->0;
                                                assert forall|k: int|
                                                    0 <= k < l2@.len() implies s1.value_fits(
                                                    i,
                                                    #[trigger] l2@[k],
                                                ) by {
                                                    assert(s0.value_fits(i, l2@[k]));
                                                    lemma_value_fits_transfer(
                                                        s0,
                                                        s1,
                                                        i,
                                                        l2@[k],
                                                        xi,
                                                    );
                                                }
                                            }
                                        }
                                        // memos still sit above their trial values
                                        assert forall|i: int|
                                            0 <= i < szi && on_stack(stack1, i) implies #[trigger]
                                        s1.memo_above(i) by {
                                            assert(on_stack(stack0, i));
                                            assert((i as int) < xi);
                                            assert(s0.memo_above(i));
                                        }
                                        // prefix agreement carries across the step
                                        assert forall|sol: Seq<u8>, j: int|
                                            0 <= j <= stack1.len() implies (#[trigger] s1
                                                .stack_prefix_agrees(sol, j) <==> s0
                                                .stack_prefix_agrees(sol, j)) by {
                                            assert forall|k: int|
                                                0 <= k < j implies stack1[k] == stack0[k]
                                                    && s1.grid.cells@[(#[trigger] stack0[k])
                                                    as int] == cells0[stack0[k] as int] by {
                                                assert((stack0[k] as int) < xi);
                                            }
                                        }
                                        // completeness: solutions stay reachable or were emitted
                                        assert forall|sol: Seq<u8>|
                                            #[trigger] is_solution(sol, orig, eli, bsi) implies s1
                                            .emitted@.contains(sol) || s1.unexplored(
                                            sol,
                                            nii,
                                        ) by {
                                            if !s0.emitted@.contains(sol) {
                                                assert(s0.unexplored(sol, xi));
                                                if exists|j: int|
                                                    0 <= j < stack0.len()
                                                        && #[trigger] s0.stack_prefix_agrees(
                                                        sol,
                                                        j,
                                                    ) && (match poss0[stack0[j] as int] {
                                                        Some(l2) => l2@.contains(
                                                            sol[stack0[j] as int],
                                                        ),
                                                        None => false,
                                                    }) {
                                                    let j = choose|j: int|
                                                        0 <= j < stack0.len()
                                                            && #[trigger] s0.stack_prefix_agrees(
                                                            sol,
                                                            j,
                                                        ) && (match poss0[stack0[j] as int] {
                                                            Some(l2) => l2@.contains(
                                                                sol[stack0[j] as int],
                                                            ),
                                                            None => false,
                                                        });
                                                    if j < stack0.len() - 1 {
                                                        assert(s1.stack_prefix_agrees(sol, j));
                                                        assert(stack1[j] == stack0[j]);
                                                        assert((stack0[j] as int) < xi);
                                                        assert(s1.possibles@[stack0[j] as int]
                                                            == poss0[stack0[j] as int]);
                                                        assert(s1.unexplored(sol, nii));
                                                    } else {
                                                        assert(s1.stack_prefix_agrees(
                                                            sol,
                                                            stack1.len() as int,
                                                        ));
                                                        assert(nii != xi);
                                                        assert(s1.possibles@[nii] == poss0[nii]);
                                                        assert(s1.memo_admits(nii, sol[nii]));
                                                        assert(s1.unexplored(sol, nii));
                                                    }
                                                } else {
                                                    assert(s0.stack_prefix_agrees(
                                                        sol,
                                                        stack0.len() as int,
                                                    ));
                                                    assert(s0.memo_admits(xi, sol[xi]));
                                                    assert(l_before.contains(sol[xi]));
                                                    assert(false);
                                                }
                                            }
                                        }
                                        // nothing already emitted is reachable again
                                        assert forall|sol: Seq<u8>| #[trigger] s1
                                            .emitted@.contains(sol) implies !s1.unexplored(
                                            sol,
                                            nii,
                                        ) by {
                                            if s1.unexplored(sol, nii) {
                                                assert(s0.emitted@.contains(sol));
                                                if exists|j: int|
                                                    0 <= j < stack1.len()
                                                        && #[trigger] s1.stack_prefix_agrees(
                                                        sol,
                                                        j,
                                                    ) && (match s1.possibles@[stack1[j] as int] {
                                                        Some(l2) => l2@.contains(
                                                            sol[stack1[j] as int],
                                                        ),
                                                        None => false,
                                                    }) {
                                                    let j = choose|j: int|
                                                        0 <= j < stack1.len()
                                                            && #[trigger] s1.stack_prefix_agrees(
                                                            sol,
                                                            j,
                                                        ) && (match s1.possibles@[stack1[j]
                                                            as int] {
                                                            Some(l2) => l2@.contains(
                                                                sol[stack1[j] as int],
                                                            ),
                                                            None => false,
                                                        });
                                                    assert(s0.stack_prefix_agrees(sol, j));
                                                    assert(stack1[j] == stack0[j]);
                                                    assert((stack0[j] as int) < xi);
                                                    assert(s1.possibles@[stack0[j] as int]
                                                        == poss0[stack0[j] as int]);
                                                    assert(s0.unexplored(sol, xi));
                                                } else {
                                                    assert(s1.stack_prefix_agrees(
                                                        sol,
                                                        stack1.len() as int,
                                                    ));
                                                    assert(s1.memo_admits(nii, sol[nii]));
                                                    assert(s0.stack_prefix_agrees(
                                                        sol,
                                                        stack0.len() - 1,
                                                    ));
                                                    assert(stack0[stack0.len() - 1] as int == nii);
                                                    assert(s1.possibles@[nii] == poss0[nii]);
                                                    assert(s0.unexplored(sol, xi));
                                                }
                                                assert(!s0.unexplored(sol, xi));
                                                assert(false);
                                            }
                                        }
                                        assert(s1.search_inv(nii));
                                        // the measure does not grow, and the
                                        // number of memos shrinks unless the
                                        // memo was computed empty just now
                                        let m0 = search_measure(stack0, poss0, eli, orig, xi, szi);
                                        let m1 = search_measure(
                                            stack1,
                                            s1.possibles@,
                                            eli,
                                            orig,
                                            nii,
                                            szi,
                                        );
                                        let w_x = weight(eli, orig, xi);
                                        let sm0 = stack_measure(stack0, poss0, eli, orig);
                                        lemma_stack_measure_update(
                                            stack0,
                                            poss0,
                                            s1.possibles@,
                                            eli,
                                            orig,
                                            xi,
                                        );
                                        assert(stack_measure(stack0, s1.possibles@, eli, orig)
                                            == stack_measure(stack1, s1.possibles@, eli, orig)
                                            + slot_cost(s1.possibles@, eli, nii) * weight(
                                            eli,
                                            orig,
                                            nii,
                                        ));
                                        assert(m1 == sm0);
                                        if poss0[xi] is Some {
                                            let c0 = slot_cost(poss0, eli, xi);
                                            assert(c0 == 0);
                                            assert(c0 * w_x == 0) by (nonlinear_arith)
                                                requires
                                                    c0 == 0,
                                            ;
                                            assert(m0 == sm0);
                                            assert(m1 == m0);
                                            lemma_count_memos_update(poss0, xi, None);
                                            assert(count_memos(s1.possibles@) < count_memos(
                                                poss0,
                                            ));
                                        } else {
                                            assert(m0 == sm0 + (eli + 1) * w_x);
                                            assert((eli + 1) * w_x >= 1) by (nonlinear_arith)
                                                requires
                                                    0 <= eli,
                                                    w_x >= 1,
                                            ;
                                            assert(m1 < m0);
                                        }
                                        lemma_stack_measure_nonneg(
                                            stack1,
                                            s1.possibles@,
                                            eli,
                                            orig,
                                        );
                                        lemma_weight_pos(eli, orig, nii);
                                        lemma_count_memos_nonneg(s1.possibles@);
                                    }
                                    x = ni;
                                },
                            }
                        },
                    }
                }
                Some(self.emit_solution())
            },
        }
    }
}

/// An element-wise reversed copy of a candidate list.
fn reversed(v: &Vec<u8>) -> (r: Vec<u8>)
    ensures
        r@.len() == v@.len(),
        forall|k: int| 0 <= k < v@.len() ==> r@[k] == v@[v@.len() - 1 - k],
{
    let mut r: Vec<u8> = Vec::new();
    let mut i: usize = v.len();
    while i > 0
        invariant
            i <= v@.len(),
            r@.len() == v@.len() - i,
            forall|k: int| 0 <= k < r@.len() ==> r@[k] == v@[v@.len() - 1 - k],
        decreases i,
    {
        i = i - 1;
        r.push(v[i]);
    }
    r
}

/// Consistent givens clash pairwise with no peer: the two sides of
/// `givens_ok`, one cell at a time, give the pairwise reading used by the
/// search invariant.
proof fn lemma_givens_consistent(cells: Seq<u8>, el: int, bs: int)
    requires
        givens_ok(cells, el, bs),
    ensures
        forall|i: int, j: int|
            0 <= i < cells.len() && 0 <= j < cells.len() && cells[i] != 0 && cells[j] != 0
                && #[trigger] sees(el, bs, i, j) ==> cells[i] != cells[j],
{
    assert forall|i: int, j: int|
        0 <= i < cells.len() && 0 <= j < cells.len() && cells[i] != 0 && cells[j] != 0
            && #[trigger] sees(el, bs, i, j) implies cells[i] != cells[j] by {
        if cells[i] == cells[j] {
            assert(blocked(cells, el, bs, i, cells[i]));
        }
    }
}

/// Returns a solver that will provide the solutions of `grid`, one per call
/// of `next`.  Fails with a contradiction error, before any search begins,
/// exactly when some pre-filled cell exceeds the element range or repeats a
/// value already present in its row, column or box.
pub fn solutions(grid: &SudokuGrid) -> (r: Result<SudokuSolver, SudokuError>)
    requires
        grid.wf(),
    ensures
        r is Ok <==> givens_ok(grid.cells@, grid.elements as int, grid.boxsize as int),
        r matches Ok(s) ==> s.wf() && s.is_initial_for(*grid),
        r matches Err(e) ==> e == SudokuError::Contradiction,
{
    let work = grid.clone();
    let el = work.elements;
    let mut i: usize = 0;
    while i < work.size
        invariant
            work.wf(),
            work.cells@ == grid.cells@,
            work.elements == grid.elements,
            work.boxsize == grid.boxsize,
            work.size == grid.size,
            el == work.elements,
            i <= work.size,
            forall|k: int|
                0 <= k < i && #[trigger] work.cells@[k] != 0 ==> work.cells@[k]
                    <= work.elements && !blocked(
                    work.cells@,
                    work.elements as int,
                    work.boxsize as int,
                    k,
                    work.cells@[k],
                ),
        decreases work.size - i,
    {
        let x = work.cells[i];
        if x != 0 {
            if x as usize > el {
                proof {
                    assert(work.cells@[i as int] > work.elements);
                    assert(!givens_ok(work.cells@, work.elements as int, work.boxsize as int));
                }
                return Err(SudokuError::Contradiction);
            }
            let possibles = work.possibilities(i);
            if !contains_value(&possibles, x) {
                proof {
                    assert(!is_candidate(
                        work.cells@,
                        work.elements as int,
                        work.boxsize as int,
                        i as int,
                        x,
                    ));
                    assert(blocked(
                        work.cells@,
                        work.elements as int,
                        work.boxsize as int,
                        i as int,
                        work.cells@[i as int],
                    ));
                    assert(!givens_ok(work.cells@, work.elements as int, work.boxsize as int));
                }
                return Err(SudokuError::Contradiction);
            }
        }
        i = i + 1;
    }
    Ok(SudokuSolver::new(work))
}

/// Whether `v` holds the value `x`.
fn contains_value(v: &Vec<u8>, x: u8) -> (r: bool)
    ensures
        r == v@.contains(x),
{
    let mut i: usize = 0;
    while i < v.len()
        invariant
            i <= v@.len(),
            forall|k: int| 0 <= k < i ==> v@[k] != x,
        decreases v@.len() - i,
    {
        if v[i] == x {
            return true;
        }
        i = i + 1;
    }
    false
}

/// A vector of `n` copies of `value`.
fn fill_usize(n: usize, value: usize) -> (r: Vec<usize>)
    ensures
        r@.len() == n,
        forall|j: int| 0 <= j < n ==> r@[j] == value,
{
    let mut v: Vec<usize> = Vec::new();
    let mut i: usize = 0;
    while i < n
        invariant
            i <= n,
            v@.len() == i,
            forall|j: int| 0 <= j < i ==> v@[j] == value,
        decreases n - i,
    {
        v.push(value);
        i = i + 1;
    }
    v
}

/// A vector of `n` empty memo slots.
fn fill_none(n: usize) -> (r: Vec<Option<Vec<u8>>>)
    ensures
        r@.len() == n,
        forall|j: int| 0 <= j < n ==> (#[trigger] r@[j]) is None,
{
    let mut v: Vec<Option<Vec<u8>>> = Vec::new();
    let mut i: usize = 0;
    while i < n
        invariant
            i <= n,
            v@.len() == i,
            forall|j: int| 0 <= j < i ==> (#[trigger] v@[j]) is None,
        decreases n - i,
    {
        v.push(None);
        i = i + 1;
    }
    v
}

} // verus!
