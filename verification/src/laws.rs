//! Crate-level laws: properties that tie several functions together, stated
//! once and proved for every input they speak of.

use vstd::prelude::*;

use crate::codec::{cell_text, format_char, format_prefix, format_text, parse_char, parse_values};
use crate::grid::{valid_shape, SudokuGrid};
use crate::model::{first_empty_from, is_solution, lemma_first_empty_from};
use crate::solver::SudokuSolver;

verus! {

/// Decoding distributes over concatenation of texts.
proof fn lemma_parse_values_concat(a: Seq<char>, b: Seq<char>)
    ensures
        parse_values(a + b) == parse_values(a) + parse_values(b),
    decreases b.len(),
{
    if b.len() == 0 {
        assert(a + b =~= a);
        assert(parse_values(a) + parse_values(b) =~= parse_values(a));
    } else {
        assert((a + b).drop_last() =~= a + b.drop_last());
        assert((a + b).last() == b.last());
        lemma_parse_values_concat(a, b.drop_last());
        match parse_char(b.last()) {
            Some(v) => {
                assert(parse_values(a) + (parse_values(b.drop_last()) + seq![v]) =~= (parse_values(
                    a,
                ) + parse_values(b.drop_last())) + seq![v]);
            },
            None => {
                assert(parse_values(a) + (parse_values(b.drop_last()) + Seq::<u8>::empty()) =~= (
                parse_values(a) + parse_values(b.drop_last())) + Seq::<u8>::empty());
            },
        }
    }
}

/// A text of nothing but ignored characters decodes to no cells.
proof fn lemma_parse_values_ignored(s: Seq<char>)
    requires
        forall|k: int| 0 <= k < s.len() ==> parse_char(#[trigger] s[k]) is None,
    ensures
        parse_values(s) == Seq::<u8>::empty(),
    decreases s.len(),
{
    if s.len() > 0 {
        lemma_parse_values_ignored(s.drop_last());
        assert(parse_values(s) =~= Seq::<u8>::empty());
    }
}

/// Every value a decoding scan collects is at most 61.
pub proof fn lemma_parse_values_bounded(s: Seq<char>)
    ensures
        forall|k: int| 0 <= k < parse_values(s).len() ==> #[trigger] parse_values(s)[k] <= 61,
    decreases s.len(),
{
    if s.len() > 0 {
        lemma_parse_values_bounded(s.drop_last());
        let pre = parse_values(s.drop_last());
        assert forall|k: int|
            0 <= k < parse_values(s).len() implies #[trigger] parse_values(s)[k] <= 61 by {
            if k < pre.len() {
                assert(parse_values(s)[k] == pre[k]);
            }
        }
    }
}

/// Encoding then decoding one cell value gives it back.
proof fn lemma_format_parse_char(v: u8)
    requires
        v <= 61,
    ensures
        parse_char(format_char(v)) == Some(v),
{
}

/// The text of one cell decodes back to exactly that cell's value: the
/// surrounding separators are ignored and its character is kept.
proof fn lemma_cell_text_round_trip(cells: Seq<u8>, el: int, bs: int, i: int)
    requires
        0 <= i < cells.len(),
        cells[i] <= 61,
    ensures
        parse_values(cell_text(cells, el, bs, i)) == seq![cells[i]],
{
    let gap: Seq<char> = if i > 0 && i % (bs * el) == 0 {
        seq!['\n']
    } else {
        Seq::empty()
    };
    let sep: Seq<char> = if i % el == el - 1 {
        seq!['\n']
    } else if i % bs == bs - 1 {
        seq![' ', ' ']
    } else {
        seq![' ']
    };
    let mid = seq![format_char(cells[i])];
    assert(parse_char('\n') is None);
    assert(parse_char(' ') is None);
    lemma_parse_values_ignored(gap);
    lemma_parse_values_ignored(sep);
    lemma_format_parse_char(cells[i]);
    assert(parse_values(mid) =~= seq![cells[i]]) by {
        assert(mid.drop_last() =~= Seq::<char>::empty());
        assert(parse_values(Seq::<char>::empty()) =~= Seq::<u8>::empty());
        assert(mid.last() == format_char(cells[i]));
    }
    lemma_parse_values_concat(gap + mid, sep);
    lemma_parse_values_concat(gap, mid);
    assert(parse_values(cell_text(cells, el, bs, i)) =~= seq![cells[i]]);
}

/// The text of the first `i` cells decodes back to exactly those cells.
proof fn lemma_prefix_round_trip(cells: Seq<u8>, el: int, bs: int, i: int)
    requires
        0 <= i <= cells.len(),
        forall|k: int| 0 <= k < cells.len() ==> #[trigger] cells[k] <= 61,
    ensures
        parse_values(format_prefix(cells, el, bs, i)) == cells.subrange(0, i),
    decreases i,
{
    if i == 0 {
        assert(parse_values(format_prefix(cells, el, bs, 0)) =~= cells.subrange(0, 0));
    } else {
        lemma_prefix_round_trip(cells, el, bs, i - 1);
        lemma_parse_values_concat(format_prefix(cells, el, bs, i - 1), cell_text(cells, el, bs, i - 1));
        lemma_cell_text_round_trip(cells, el, bs, i - 1);
        assert(cells.subrange(0, i - 1) + seq![cells[i - 1]] =~= cells.subrange(0, i));
    }
}

/// Law: the codec round-trips.  Decoding the text that encodes a well-formed
/// grid collects exactly the grid's cells again, and their count has a valid
/// shape, so re-decoding succeeds and yields a grid with identical cells.
/// Since every decoded grid is well-formed with cell values at most 61,
/// decode-encode-decode returns to the first decoding's cells.
pub proof fn lemma_encode_decode_round_trip(g: SudokuGrid)
    requires
        g.wf(),
        forall|i: int| 0 <= i < g.cells@.len() ==> #[trigger] g.cells@[i] <= 61,
    ensures
        parse_values(format_text(g.cells@, g.elements as int, g.boxsize as int)) == g.cells@,
        valid_shape(g.cells@.len() as int),
{
    let cells = g.cells@;
    let eli = g.elements as int;
    let bsi = g.boxsize as int;
    if cells.len() == 0 {
        assert(parse_values(format_text(cells, eli, bsi)) =~= cells);
    } else {
        lemma_prefix_round_trip(cells, eli, bsi, cells.len() as int);
        assert(cells.subrange(0, cells.len() as int) =~= cells);
    }
    assert(bsi * bsi * bsi * bsi == (bsi * bsi) * (bsi * bsi)) by (nonlinear_arith);
    assert(valid_shape(cells.len() as int));
}

/// Law: a solution of a fully pre-filled puzzle is the puzzle itself, so a
/// consistent full grid has no solution other than itself.
pub proof fn lemma_full_grid_solution_is_itself(sol: Seq<u8>, orig: Seq<u8>, el: int, bs: int)
    requires
        is_solution(sol, orig, el, bs),
        forall|i: int| 0 <= i < orig.len() ==> #[trigger] orig[i] != 0,
    ensures
        sol == orig,
{
    assert(sol =~= orig);
}

/// Law: the solver for a fully pre-filled, consistent grid starts in the
/// completed state with an empty path.  By the contract of `next`, its first
/// call therefore returns exactly the grid itself and exhausts the search,
/// and every later call returns nothing: exactly one solution, equal to the
/// grid.
pub proof fn lemma_full_grid_start_complete(s: SudokuSolver, g: SudokuGrid)
    requires
        g.wf(),
        s.is_initial_for(g),
        g.cells@.len() > 0,
        forall|i: int| 0 <= i < g.cells@.len() ==> #[trigger] g.cells@[i] != 0,
    ensures
        s.cursor() == s.sz(),
        s.index_stack@.len() == 0,
{
    lemma_first_empty_from(g.cells@, 0);
    let fe = first_empty_from(g.cells@, 0);
    assert(fe == g.cells@.len());
}

/// Law: the solver for a grid of zero cells starts exhausted.  By the
/// contract of `next`, every call on it returns nothing: the degenerate
/// empty puzzle has an empty solution sequence, not one trivial solution.
pub proof fn lemma_empty_grid_search_exhausted(s: SudokuSolver, g: SudokuGrid)
    requires
        s.is_initial_for(g),
        g.cells@.len() == 0,
    ensures
        s.cursor() < 0,
{
}

/// Law: the only solution of the one-cell empty puzzle sets its cell to 1.
/// So any grid the solver emits for it holds exactly a 1, and since a fresh
/// solver has emitted nothing and `next` may not report exhaustion before
/// every solution has been emitted, it emits that grid exactly once.
pub proof fn lemma_one_cell_grid_solution(sol: Seq<u8>)
    requires
        is_solution(sol, seq![0u8], 1, 1),
    ensures
        sol == seq![1u8],
{
    assert(sol =~= seq![1u8]);
}

/// Law: the one-cell empty puzzle does have a solution, the cell set to 1,
/// so its solver cannot report exhaustion before emitting it.
pub proof fn lemma_one_cell_grid_has_solution()
    ensures
        is_solution(seq![1u8], seq![0u8], 1, 1),
{
    assert(seq![1u8].len() == seq![0u8].len());
    assert(seq![1u8][0] == 1u8);
}

} // verus!
