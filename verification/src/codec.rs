//! Pure text encoding and decoding of grids.
//!
//! Decoding scans the input left to right and keeps only the characters that
//! stand for a cell: `.` and `0` mean empty, `1`-`9`, `A`-`Z` and `a`-`z`
//! mean the values 1 to 61.  Everything else (whitespace, separators,
//! decoration) is ignored.  Encoding is the inverse mapping, with one space
//! between cells, two spaces after each box-width group, a newline after
//! each row, and a blank line after each box-height group of rows.

use vstd::prelude::*;

use crate::grid::{valid_shape, SudokuError, SudokuGrid};
use vstd::string::{StrSliceExecFns, StringExecFns};

verus! {

/// The value a character stands for, if any: `.` and `0` are empty (0),
/// `1`-`9` are 1-9, `A`-`Z` are 10-35, `a`-`z` are 36-61.
pub open spec fn parse_char(c: char) -> Option<u8> {
    let u = c as int;
    if ('0' as int) <= u && u <= ('9' as int) {
        Some((u - ('0' as int)) as u8)
    } else if c == '.' {
        Some(0u8)
    } else if ('A' as int) <= u && u <= ('Z' as int) {
        Some((u - ('A' as int) + 10) as u8)
    } else if ('a' as int) <= u && u <= ('z' as int) {
        Some((u - ('a' as int) + 36) as u8)
    } else {
        None
    }
}

/// The character that encodes the value `v` (which must be at most 61).
pub open spec fn format_char(v: u8) -> char {
    if v == 0 {
        '.'
    } else if v <= 9 {
        (v + ('0' as int) as u8) as char
    } else if v <= 35 {
        (v - 10 + ('A' as int) as u8) as char
    } else {
        (v - 36 + ('a' as int) as u8) as char
    }
}

/// The cell values that a decoding scan collects from `s`, in order.
pub open spec fn parse_values(s: Seq<char>) -> Seq<u8>
    decreases s.len(),
{
    if s.len() == 0 {
        Seq::empty()
    } else {
        parse_values(s.drop_last()) + match parse_char(s.last()) {
            Some(v) => seq![v],
            None => Seq::empty(),
        }
    }
}

/// The text emitted for cell `i`: a blank line before a new group of rows,
/// the cell's character, then the separator that follows it.
pub open spec fn cell_text(cells: Seq<u8>, el: int, bs: int, i: int) -> Seq<char> {
    let gap: Seq<char> = if i > 0 && i % (bs * el) == 0 {
        seq!['\n']
    } else {
        Seq::empty()
    };
    let sep: Seq<char> = if i % el == el - 1 {
        seq!['\n']
    } else if i % bs == bs - 1 {
        seq![' ', ' ']
    } else {
        seq![' ']
    };
    gap + seq![format_char(cells[i])] + sep
}

/// The text emitted for the first `i` cells.
pub open spec fn format_prefix(cells: Seq<u8>, el: int, bs: int, i: int) -> Seq<char>
    decreases i,
{
    if i <= 0 {
        Seq::empty()
    } else {
        format_prefix(cells, el, bs, i - 1) + cell_text(cells, el, bs, i - 1)
    }
}

/// The full text of a grid; an empty grid encodes to the empty text.
pub open spec fn format_text(cells: Seq<u8>, el: int, bs: int) -> Seq<char> {
    if cells.len() == 0 {
        Seq::empty()
    } else {
        format_prefix(cells, el, bs, cells.len() as int)
    }
}

/// Converts a character to the cell value it stands for, or nothing for a
/// character that a puzzle text ignores.
pub fn parse_element(c: char) -> (r: Option<u8>)
    ensures
        r == parse_char(c),
{
    let u = c as u32;
    if ('0' as u32) <= u && u <= ('9' as u32) {
        Some((u - ('0' as u32)) as u8)
    } else if u == ('.' as u32) {
        Some(0)
    } else if ('A' as u32) <= u && u <= ('Z' as u32) {
        Some((u - ('A' as u32) + 10) as u8)
    } else if ('a' as u32) <= u && u <= ('z' as u32) {
        Some((u - ('a' as u32) + 36) as u8)
    } else {
        None
    }
}

/// Relies on `char::to_string` from std: the string holding exactly the one
/// character it is called on.
#[verifier::external_body]
fn char_to_string(c: char) -> (r: String)
    ensures
        r@ == seq![c],
{
    c.to_string()
}

/// Converts a cell value to its one-character string representation:
/// 0 becomes ".", 1 to 9 become "1" to "9", 10 to 35 become "A" to "Z",
/// and 36 to 61 become "a" to "z".
pub fn format_element(n: u8) -> (r: String)
    requires
        n <= 61,
    ensures
        r@ == seq![format_char(n)],
{
    let c: char = if n == 0 {
        '.'
    } else if n <= 9 {
        (n + 48) as char
    } else if n <= 35 {
        (n + 55) as char
    } else {
        (n + 61) as char
    };
    char_to_string(c)
}

/// Parses text as a puzzle grid.  Characters that stand for no cell are
/// ignored; the values collected from the rest must number a perfect square
/// of a perfect square, at most 256.
pub fn parse(content: &str) -> (r: Result<SudokuGrid, SudokuError>)
    ensures
        r is Ok <==> valid_shape(parse_values(content@).len() as int),
        r matches Ok(g) ==> g.wf() && g.cells@ == parse_values(content@),
        r matches Err(e) ==> e == SudokuError::Shape,
{
    let n = content.unicode_len();
    let mut cell_values: Vec<u8> = Vec::new();
    let mut i: usize = 0;
    while i < n
        invariant
            i <= n,
            n == content@.len(),
            cell_values@ == parse_values(content@.subrange(0, i as int)),
        decreases n - i,
    {
        let c = content.get_char(i);
        match parse_element(c) {
            Some(x) => cell_values.push(x),
            None => {},
        }
        proof {
            let pre = content@.subrange(0, i as int);
            let post = content@.subrange(0, i + 1);
            assert(post.drop_last() =~= pre);
            assert(post.last() == content@[i as int]);
        }
        i = i + 1;
    }
    proof {
        assert(content@.subrange(0, n as int) =~= content@);
    }
    SudokuGrid::load(&cell_values)
}

/// Returns the text of a grid, useful for output on a console.  Only values
/// up to 61 can be written.
pub fn format(grid: SudokuGrid) -> (r: String)
    requires
        grid.wf(),
        forall|i: int| 0 <= i < grid.cells@.len() ==> grid.cells@[i] <= 61,
    ensures
        r@ == format_text(grid.cells@, grid.elements as int, grid.boxsize as int),
{
    let ghost cells = grid.cells@;
    let ghost eli = grid.elements as int;
    let ghost bsi = grid.boxsize as int;
    if grid.size == 0 {
        return String::new();
    }
    let el = grid.elements;
    let bs = grid.boxsize;
    proof {
        assert(1 <= bsi && 1 <= eli && 1 <= bsi * eli <= 64) by (nonlinear_arith)
            requires
                eli == bsi * bsi,
                0 <= bsi <= 4,
                (grid.size as int) == eli * eli,
                grid.size as int > 0,
        ;
    }
    let row_of_boxes = bs * el;
    let mut result = String::new();
    let mut i: usize = 0;
    while i < grid.size
        invariant
            grid.wf(),
            cells == grid.cells@,
            eli == grid.elements as int,
            bsi == grid.boxsize as int,
            el == grid.elements,
            bs == grid.boxsize,
            1 <= bsi,
            1 <= eli,
            row_of_boxes as int == bsi * eli,
            1 <= row_of_boxes,
            i <= grid.size,
            forall|j: int| 0 <= j < cells.len() ==> cells[j] <= 61,
            result@ == format_prefix(cells, eli, bsi, i as int),
        decreases grid.size - i,
    {
        proof {
            reveal_strlit("\n");
            reveal_strlit(" ");
            reveal_strlit("  ");
        }
        if i > 0 && i % row_of_boxes == 0 {
            result.append("\n");
        }
        let e = format_element(grid.cells[i]);
        result.append(e.as_str());
        if i % el == el - 1 {
            result.append("\n");
        } else if i % bs == bs - 1 {
            result.append("  ");
        } else {
            result.append(" ");
        }
        proof {
            assert(result@ =~= format_prefix(cells, eli, bsi, i + 1));
        }
        i = i + 1;
    }
    result
}

} // verus!
