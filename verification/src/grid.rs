//! The grid: cell storage, shape validation, and per-cell candidate
//! computation.

use vstd::prelude::*;

use crate::model::{blocked, is_candidate, same_box, same_col, same_row, sees};
use vstd::arithmetic::div_mod::lemma_fundamental_div_mod_converse;

verus! {

/// The two ways a puzzle can be rejected.
#[derive(Clone, Copy, PartialEq, Eq, Structural, Debug)]
pub enum SudokuError {
    /// The cell count is not the fourth power of a box side, or the element
    /// count is above the supported maximum or not a perfect square.
    Shape,
    /// A pre-filled cell is out of range or repeats a value of a peer.
    Contradiction,
}

/// `n` is the square of some integer.
pub open spec fn is_perfect_square(n: int) -> bool {
    exists|k: int| 0 <= k && #[trigger] (k * k) == n
}

/// `n` cells can form a grid: `n` is the fourth power of a box side of at
/// most 4 (so at most 16 elements).
pub open spec fn valid_shape(n: int) -> bool {
    exists|b: int| 0 <= b <= 4 && #[trigger] (b * b * b * b) == n
}

/// A sudoku grid.  Cells are stored row-major, the top-left cell first;
/// value 0 means empty and `1..=elements` are placed elements.
pub struct SudokuGrid {
    /// The cells of the grid.
    pub cells: Vec<u8>,
    /// Number of cells: `elements` squared.
    pub size: usize,
    /// Number of distinct values, and of cells per row, column and box.
    pub elements: usize,
    /// Side length of a box: the square root of `elements`.
    pub boxsize: usize,
}

impl SudokuGrid {
    /// Shape invariant: the three derived size fields agree and the cell
    /// vector has the declared length.
    pub open spec fn wf(self) -> bool {
        &&& self.boxsize <= 4
        &&& self.elements == self.boxsize * self.boxsize
        &&& self.size == self.elements * self.elements
        &&& self.cells@.len() == self.size
    }

    /// Creates a new, empty grid.  `elements` must be a perfect square of at
    /// most 16; otherwise the shape is rejected.
    pub fn new(elements: u8) -> (r: Result<SudokuGrid, SudokuError>)
        ensures
            r is Ok <==> (elements <= 16 && is_perfect_square(elements as int)),
            r matches Ok(g) ==> g.wf() && g.elements == elements as usize && g.cells@ == Seq::new(
                (elements as nat) * (elements as nat),
                |i: int| 0u8,
            ),
            r matches Err(e) ==> e == SudokuError::Shape,
    {
        if elements > 16 {
            return Err(SudokuError::Shape);
        }
        let elements = elements as usize;
        let boxsize = int_sqrt(elements);
        proof {
            assert(boxsize <= 4) by (nonlinear_arith)
                requires
                    (boxsize as int) * (boxsize as int) <= 16,
                    0 <= boxsize as int,
            ;
        }
        if boxsize * boxsize != elements {
            proof {
                lemma_sqrt_unique(elements as int, boxsize as int);
            }
            return Err(SudokuError::Shape);
        }
        proof {
            assert((elements as int) * (elements as int) <= 256) by (nonlinear_arith)
                requires
                    0 <= (elements as int) <= 16,
            ;
        }
        let size = elements * elements;
        let cells = zero_cells(size);
        Ok(SudokuGrid { cells, size, elements, boxsize })
    }

    /// Returns a grid preloaded with the values in `cell_values`, the
    /// top-left cell first, row by row.  A value of 0 means empty; any other
    /// value is an element in that cell (values are not range-checked here).
    /// The length must be a perfect square of a perfect square, at most 256.
    pub fn load(cell_values: &Vec<u8>) -> (r: Result<SudokuGrid, SudokuError>)
        ensures
            r is Ok <==> valid_shape(cell_values@.len() as int),
            r matches Ok(g) ==> g.wf() && g.cells@ == cell_values@,
            r matches Err(e) ==> e == SudokuError::Shape,
    {
        let len = cell_values.len();
        if len > 256 {
            proof {
                assert forall|b: int| 0 <= b <= 4 implies #[trigger] (b * b * b * b) <= 256 by {
                    lemma_fourth_power_monotone(b, 4);
                }
            }
            return Err(SudokuError::Shape);
        }
        let elements = int_sqrt(len);
        proof {
            assert(elements <= 16) by (nonlinear_arith)
                requires
                    (elements as int) * (elements as int) <= 256,
                    0 <= elements as int,
            ;
        }
        let boxsize = int_sqrt(elements);
        proof {
            assert(boxsize <= 4) by (nonlinear_arith)
                requires
                    (boxsize as int) * (boxsize as int) <= 16,
                    0 <= boxsize as int,
            ;
            assert((boxsize as int) * (boxsize as int) <= 16 && (boxsize as int) * (boxsize as int)
                * (boxsize as int) <= 64 && (boxsize as int) * (boxsize as int) * (boxsize as int)
                * (boxsize as int) <= 256 && (boxsize as int) * (boxsize as int) * (boxsize as int)
                * (boxsize as int) == ((boxsize as int) * (boxsize as int)) * ((boxsize as int)
                * (boxsize as int))) by (nonlinear_arith)
                requires
                    0 <= (boxsize as int) <= 4,
            ;
        }
        if boxsize * boxsize * boxsize * boxsize != len {
            proof {
                if valid_shape(len as int) {
                    let b = choose|b: int| 0 <= b <= 4 && #[trigger] (b * b * b * b) == len;
                    lemma_sqrt_unique(len as int, elements as int);
                    lemma_sqrt_unique(elements as int, boxsize as int);
                    assert((b * b) * (b * b) == len as int && 0 <= b * b) by (nonlinear_arith)
                        requires
                            b * b * b * b == len as int,
                            0 <= b,
                    ;
                    assert(elements as int == b * b);
                    assert(boxsize as int == b);
                }
            }
            return Err(SudokuError::Shape);
        }
        proof {
            lemma_sqrt_unique(len as int, elements as int);
            assert(elements as int == (boxsize as int) * (boxsize as int));
            assert(valid_shape(len as int));
        }
        let mut grid = match SudokuGrid::new(elements as u8) {
            Ok(g) => g,
            Err(_) => {
                return Err(SudokuError::Shape);
            },
        };
        let mut i: usize = 0;
        while i < len
            invariant
                grid.wf(),
                i <= len,
                len == cell_values@.len(),
                grid.cells@.len() == len,
                forall|j: int| 0 <= j < i ==> grid.cells@[j] == cell_values@[j],
                forall|j: int| i <= j < len ==> grid.cells@[j] == 0,
                grid.size == len,
            decreases len - i,
        {
            let v = cell_values[i];
            if v != 0 {
                grid.cells[i] = v;
            }
            i = i + 1;
        }
        proof {
            assert(grid.cells@ =~= cell_values@);
        }
        Ok(grid)
    }
}

impl SudokuGrid {
    /// Helper for `possibilities`: the value in the cell at `index`, except
    /// that probing the cell at `except_index` reads 0, so that a cell never
    /// rules out its own value.
    fn read_value_at_index(&self, index: usize, except_index: usize) -> (r: usize)
        requires
            self.wf(),
            index < self.size,
        ensures
            r == (if index == except_index {
                0int
            } else {
                self.cells@[index as int] as int
            }),
    {
        if index == except_index {
            return 0;
        }
        self.cells[index] as usize
    }

    /// The candidate values for the cell at `index`: every value `1..=elements`
    /// not already present among the cell's row, column or box peers, in
    /// ascending order.  The cell's own content is ignored, so a filled cell
    /// is never excluded by itself.
    pub fn possibilities(&self, index: usize) -> (r: Vec<u8>)
        requires
            self.wf(),
            index < self.size,
        ensures
            forall|k: int|
                0 <= k < r@.len() ==> is_candidate(
                    self.cells@,
                    self.elements as int,
                    self.boxsize as int,
                    index as int,
                    #[trigger] r@[k],
                ),
            forall|v: u8|
                is_candidate(
                    self.cells@,
                    self.elements as int,
                    self.boxsize as int,
                    index as int,
                    v,
                ) ==> r@.contains(v),
            forall|k1: int, k2: int| 0 <= k1 < k2 < r@.len() ==> r@[k1] < r@[k2],
            r@.len() <= self.elements,
    {
        let ghost cells = self.cells@;
        let el = self.elements;
        let bs = self.boxsize;
        let ghost eli = el as int;
        let ghost bsi = bs as int;
        proof {
            assert(1 <= bsi && eli == bsi * bsi && eli <= 16 && eli * eli <= 256 && 1 <= eli)
                by (nonlinear_arith)
                requires
                    eli == bsi * bsi,
                    (self.size as int) == eli * eli,
                    0 <= bsi <= 4,
                    0 <= (index as int) && (index as int) < (self.size as int),
            ;
            lemma_row_col(eli, index as int);
        }
        // `pmap[v]` will say whether value `v` is still possible.
        let mut pmap = fill_true(el + 1);
        pmap[0] = false;
        let row = index / el;
        let col = index % el;
        let rowstart = row * el;
        let boxrow = row / bs;
        let boxcol = col / bs;
        proof {
            lemma_row_col(bsi, index as int / eli);
            lemma_row_col(bsi, index as int % eli);
            assert(boxrow as int * bsi * eli + boxcol as int * bsi + (bsi - 1) + (bsi - 1) * eli
                < eli * eli && boxrow as int * bsi * eli >= 0 && boxcol as int * bsi >= 0)
                by (nonlinear_arith)
                requires
                    eli == bsi * bsi,
                    1 <= bsi,
                    0 <= (boxrow as int) && (boxrow as int) < bsi,
                    0 <= (boxcol as int) && (boxcol as int) < bsi,
            ;
            assert(rowstart as int + (eli - 1) < eli * eli && eli * (eli - 1) + (eli - 1) < eli
                * eli) by (nonlinear_arith)
                requires
                    rowstart as int == (index as int / eli) * eli,
                    0 <= (index as int / eli) && (index as int / eli) < eli,
                    1 <= eli,
            ;
        }
        let boxbase = boxrow * bs * el + boxcol * bs;
        // Clear the entry for every value seen in the row, the column or the
        // box, skipping the probed cell when it is the cell itself.
        let mut t: usize = 0;
        while t < el
            invariant
                self.wf(),
                cells == self.cells@,
                el == self.elements,
                bs == self.boxsize,
                eli == el as int,
                bsi == bs as int,
                eli == bsi * bsi,
                1 <= bsi,
                eli * eli == self.size,
                index < self.size,
                t <= el,
                row as int == index as int / eli,
                col as int == index as int % eli,
                rowstart as int == row as int * eli,
                boxrow as int == row as int / bsi,
                boxcol as int == col as int / bsi,
                boxbase as int == box_base(eli, bsi, index as int),
                boxbase as int + (bsi - 1) + (bsi - 1) * eli < eli * eli,
                rowstart as int + (eli - 1) < eli * eli,
                eli * (eli - 1) + (eli - 1) < eli * eli,
                pmap@.len() == eli + 1,
                pmap@[0] == false,
                forall|w: int|
                    1 <= w <= eli ==> (pmap@[w] <==> !exists|tt: int|
                        0 <= tt < t && probe_hit(cells, eli, bsi, index as int, tt, w)),
            decreases el - t,
        {
            proof {
                lemma_probe_is_peer(eli, bsi, index as int, t as int);
                lemma_row_col(bsi, t as int);
                assert(t as int / bsi < bsi) by (nonlinear_arith)
                    requires
                        0 <= (t as int) && (t as int) < eli,
                        eli == bsi * bsi,
                        1 <= bsi,
                        (t as int / bsi) * bsi + t as int % bsi == t as int,
                        0 <= (t as int % bsi) && (t as int % bsi) < bsi,
                ;
            }
            let j1 = rowstart + t;
            let j2 = t * el + col;
            let j3 = boxbase + (t % bs) + (t / bs) * el;
            proof {
                assert(j2 as int == t as int * eli + col as int && (j2 as int) < eli * eli)
                    by (nonlinear_arith)
                    requires
                        0 <= (t as int) && (t as int) < eli,
                        0 <= (col as int) && (col as int) < eli,
                        eli * (eli - 1) + (eli - 1) < eli * eli,
                        j2 as int == t as int * eli + col as int,
                ;
            }
            let v1 = self.read_value_at_index(j1, index);
            if v1 <= el {
                pmap[v1] = false;
            }
            let v2 = self.read_value_at_index(j2, index);
            if v2 <= el {
                pmap[v2] = false;
            }
            let v3 = self.read_value_at_index(j3, index);
            if v3 <= el {
                pmap[v3] = false;
            }
            proof {
                assert forall|w: int| 1 <= w <= eli implies (pmap@[w] <==> !exists|tt: int|
                    0 <= tt < t + 1 && probe_hit(cells, eli, bsi, index as int, tt, w)) by {
                    assert(probe_hit(cells, eli, bsi, index as int, t as int, w) <==> (v1 as int
                        == w || v2 as int == w || v3 as int == w));
                    assert forall|tt: int|
                        0 <= tt < t + 1 && probe_hit(
                            cells,
                            eli,
                            bsi,
                            index as int,
                            tt,
                            w,
                        ) implies tt < t || probe_hit(cells, eli, bsi, index as int, t as int, w)
                        by {}
                }
            }
            t = t + 1;
        }
        proof {
            lemma_hits_iff_blocked(cells, eli, bsi, index as int);
        }
        // Collect the values still possible, smallest first.
        let mut result: Vec<u8> = Vec::new();
        let mut w: usize = 1;
        while w <= el
            invariant
                eli == el as int,
                1 <= w <= el + 1,
                el <= 16,
                pmap@.len() == eli + 1,
                forall|ww: int|
                    1 <= ww <= eli ==> (pmap@[ww] <==> !blocked(
                        cells,
                        eli,
                        bsi,
                        index as int,
                        ww as u8,
                    )),
                result@.len() <= w - 1,
                forall|k: int|
                    0 <= k < result@.len() ==> is_candidate(
                        cells,
                        eli,
                        bsi,
                        index as int,
                        #[trigger] result@[k],
                    ),
                forall|k: int| 0 <= k < result@.len() ==> (#[trigger] result@[k]) < w,
                forall|v: u8|
                    is_candidate(cells, eli, bsi, index as int, v) && v < w ==> result@.contains(
                        v,
                    ),
                forall|k1: int, k2: int| 0 <= k1 < k2 < result@.len() ==> result@[k1] < result@[k2],
            decreases el + 1 - w,
        {
            let ghost oldr = result@;
            if pmap[w] {
                result.push(w as u8);
            }
            proof {
                assert forall|v: u8|
                    is_candidate(cells, eli, bsi, index as int, v) && v < w + 1 implies result@
                    .contains(v) by {
                    if v < w {
                        assert(oldr.contains(v));
                        let k = choose|k: int| 0 <= k < oldr.len() && oldr[k] == v;
                        assert(result@[k] == v);
                    } else {
                        assert(v == w as u8);
                        assert(result@[result@.len() - 1] == v);
                    }
                }
            }
            w = w + 1;
        }
        result
    }
}

/// The index probed in the cell's row at step `t`.
spec fn row_probe(el: int, index: int, t: int) -> int {
    (index / el) * el + t
}

/// The index probed in the cell's column at step `t`.
spec fn col_probe(el: int, index: int, t: int) -> int {
    t * el + index % el
}

/// The top-left index of the cell's box.
spec fn box_base(el: int, bs: int, index: int) -> int {
    ((index / el) / bs) * bs * el + ((index % el) / bs) * bs
}

/// The index probed in the cell's box at step `t`.
spec fn box_probe(el: int, bs: int, index: int, t: int) -> int {
    box_base(el, bs, index) + t % bs + (t / bs) * el
}

/// Probing `j` hits value `w`: the probed cell is not the cell itself and
/// holds `w`.
spec fn probe_one(cells: Seq<u8>, index: int, j: int, w: int) -> bool {
    j != index && cells[j] as int == w
}

/// Step `t` of the scan hits value `w` in the row, the column or the box.
spec fn probe_hit(cells: Seq<u8>, el: int, bs: int, index: int, t: int, w: int) -> bool {
    ||| probe_one(cells, index, row_probe(el, index, t), w)
    ||| probe_one(cells, index, col_probe(el, index, t), w)
    ||| probe_one(cells, index, box_probe(el, bs, index, t), w)
}

/// Step `t` of the scan reaches the cell at `j`.
spec fn probe_covers(el: int, bs: int, index: int, t: int, j: int) -> bool {
    ||| row_probe(el, index, t) == j
    ||| col_probe(el, index, t) == j
    ||| box_probe(el, bs, index, t) == j
}

/// Row and column coordinates of a cell index: in range, and recombining
/// them gives the index back.
proof fn lemma_row_col(el: int, i: int) by (nonlinear_arith)
    requires
        1 <= el,
        0 <= i < el * el,
    ensures
        0 <= i / el < el,
        0 <= i % el < el,
        (i / el) * el + i % el == i,
{
}

/// Each of the three probes of step `t` lands inside the grid, in the same
/// row (respectively column, box) as the probed cell.
proof fn lemma_probe_is_peer(el: int, bs: int, index: int, t: int)
    requires
        el == bs * bs,
        1 <= bs,
        0 <= index < el * el,
        0 <= t < el,
    ensures
        0 <= row_probe(el, index, t) < el * el,
        same_row(el, index, row_probe(el, index, t)),
        0 <= col_probe(el, index, t) < el * el,
        same_col(el, index, col_probe(el, index, t)),
        0 <= box_probe(el, bs, index, t) < el * el,
        same_box(el, bs, index, box_probe(el, bs, index, t)),
{
    lemma_row_col(el, index);
    let q = index / el;
    let c = index % el;
    // Row probe.
    let j1 = row_probe(el, index, t);
    lemma_fundamental_div_mod_converse(j1, el, q, t);
    assert(j1 < el * el) by (nonlinear_arith)
        requires
            j1 == q * el + t,
            0 <= q < el,
            0 <= t < el,
    ;
    // Column probe.
    let j2 = col_probe(el, index, t);
    lemma_fundamental_div_mod_converse(j2, el, t, c);
    assert(j2 < el * el) by (nonlinear_arith)
        requires
            j2 == t * el + c,
            0 <= t < el,
            0 <= c < el,
    ;
    // Box probe.
    lemma_row_col(bs, q);
    lemma_row_col(bs, c);
    lemma_row_col(bs, t);
    let br = q / bs;
    let bc = c / bs;
    let tq = t / bs;
    let tr = t % bs;
    assert(tq < bs) by (nonlinear_arith)
        requires
            0 <= t < bs * bs,
            1 <= bs,
            tq * bs + tr == t,
            0 <= tr < bs,
    ;
    let j3 = box_probe(el, bs, index, t);
    assert(j3 == (br * bs + tq) * el + (bc * bs + tr) && 0 <= bc * bs + tr < el && 0 <= br * bs
        + tq < el) by (nonlinear_arith)
        requires
            el == bs * bs,
            1 <= bs,
            j3 == br * bs * el + bc * bs + tr + tq * el,
            0 <= br < bs,
            0 <= bc < bs,
            0 <= tq < bs,
            0 <= tr < bs,
    ;
    lemma_fundamental_div_mod_converse(j3, el, br * bs + tq, bc * bs + tr);
    lemma_fundamental_div_mod_converse(br * bs + tq, bs, br, tq);
    lemma_fundamental_div_mod_converse(bc * bs + tr, bs, bc, tr);
    assert(j3 < el * el) by (nonlinear_arith)
        requires
            j3 == (br * bs + tq) * el + (bc * bs + tr),
            0 <= br * bs + tq < el,
            0 <= bc * bs + tr < el,
            1 <= el,
    ;
}

/// Every peer of the probed cell is reached by some step of the scan.
proof fn lemma_peer_has_probe(el: int, bs: int, index: int, j: int)
    requires
        el == bs * bs,
        1 <= bs,
        0 <= index < el * el,
        0 <= j < el * el,
        sees(el, bs, index, j),
    ensures
        exists|t: int| 0 <= t < el && #[trigger] probe_covers(el, bs, index, t, j),
{
    lemma_row_col(el, index);
    lemma_row_col(el, j);
    if same_row(el, index, j) {
        let t = j % el;
        assert(probe_covers(el, bs, index, t, j));
    } else if same_col(el, index, j) {
        let t = j / el;
        assert(probe_covers(el, bs, index, t, j));
    } else {
        assert(same_box(el, bs, index, j));
        lemma_row_col(bs, j / el);
        lemma_row_col(bs, j % el);
        let tq = (j / el) % bs;
        let tr = (j % el) % bs;
        let t = tq * bs + tr;
        assert(0 <= t < el) by (nonlinear_arith)
            requires
                el == bs * bs,
                0 <= tq < bs,
                0 <= tr < bs,
                t == tq * bs + tr,
        ;
        lemma_fundamental_div_mod_converse(t, bs, tq, tr);
        assert(box_probe(el, bs, index, t) == j) by (nonlinear_arith)
            requires
                el == bs * bs,
                1 <= bs,
                (j / el) / bs == (index / el) / bs,
                (j % el) / bs == (index % el) / bs,
                ((j / el) / bs) * bs + (j / el) % bs == j / el,
                ((j % el) / bs) * bs + (j % el) % bs == j % el,
                (j / el) * el + j % el == j,
                t / bs == tq,
                t % bs == tr,
                tq == (j / el) % bs,
                tr == (j % el) % bs,
                box_probe(el, bs, index, t) == ((index / el) / bs) * bs * el + ((index % el) / bs)
                    * bs + t % bs + (t / bs) * el,
        ;
        assert(probe_covers(el, bs, index, t, j));
    }
}

/// Some step of the scan hits value `w` exactly when a peer of the probed
/// cell holds `w`.
proof fn lemma_hits_iff_blocked(cells: Seq<u8>, el: int, bs: int, index: int)
    requires
        el == bs * bs,
        1 <= bs,
        el <= 255,
        cells.len() == el * el,
        0 <= index < el * el,
    ensures
        forall|w: int|
            1 <= w <= el ==> ((exists|t: int|
                0 <= t < el && probe_hit(cells, el, bs, index, t, w)) <==> #[trigger] blocked(
                cells,
                el,
                bs,
                index,
                w as u8,
            )),
{
    assert forall|w: int| 1 <= w <= el implies ((exists|t: int|
        0 <= t < el && probe_hit(cells, el, bs, index, t, w)) <==> #[trigger] blocked(
        cells,
        el,
        bs,
        index,
        w as u8,
    )) by {
        if exists|t: int| 0 <= t < el && probe_hit(cells, el, bs, index, t, w) {
            let t = choose|t: int| 0 <= t < el && probe_hit(cells, el, bs, index, t, w);
            lemma_probe_is_peer(el, bs, index, t);
            if probe_one(cells, index, row_probe(el, index, t), w) {
                assert(sees(el, bs, index, row_probe(el, index, t)));
                assert(blocked(cells, el, bs, index, w as u8));
            } else if probe_one(cells, index, col_probe(el, index, t), w) {
                assert(sees(el, bs, index, col_probe(el, index, t)));
                assert(blocked(cells, el, bs, index, w as u8));
            } else {
                assert(sees(el, bs, index, box_probe(el, bs, index, t)));
                assert(blocked(cells, el, bs, index, w as u8));
            }
        }
        if blocked(cells, el, bs, index, w as u8) {
            let j = choose|j: int|
                0 <= j < cells.len() && sees(el, bs, index, j) && #[trigger] cells[j] == w as u8;
            lemma_peer_has_probe(el, bs, index, j);
            let t = choose|t: int| 0 <= t < el && #[trigger] probe_covers(el, bs, index, t, j);
            assert(probe_hit(cells, el, bs, index, t, w));
        }
    }
}

impl Clone for SudokuGrid {
    /// An independent copy with the same cells and shape.
    fn clone(&self) -> (r: Self)
        ensures
            r.cells@ == self.cells@,
            r.size == self.size,
            r.elements == self.elements,
            r.boxsize == self.boxsize,
    {
        SudokuGrid {
            cells: copy_cells(&self.cells),
            size: self.size,
            elements: self.elements,
            boxsize: self.boxsize,
        }
    }
}

/// An element-wise copy of a cell vector.
fn copy_cells(v: &Vec<u8>) -> (r: Vec<u8>)
    ensures
        r@ == v@,
{
    let mut r: Vec<u8> = Vec::new();
    let mut i: usize = 0;
    while i < v.len()
        invariant
            i <= v@.len(),
            r@ == v@.subrange(0, i as int),
        decreases v@.len() - i,
    {
        r.push(v[i]);
        proof {
            assert(r@ =~= v@.subrange(0, i + 1));
        }
        i = i + 1;
    }
    proof {
        assert(v@.subrange(0, v@.len() as int) =~= v@);
    }
    r
}

/// A vector of `n` entries, all true.
fn fill_true(n: usize) -> (r: Vec<bool>)
    ensures
        r@.len() == n,
        forall|j: int| 0 <= j < n ==> r@[j] == true,
{
    let mut v: Vec<bool> = Vec::new();
    let mut i: usize = 0;
    while i < n
        invariant
            i <= n,
            v@.len() == i,
            forall|j: int| 0 <= j < i ==> v@[j] == true,
        decreases n - i,
    {
        v.push(true);
        i = i + 1;
    }
    v
}

/// Integer square root by linear search: the unique `r` with
/// `r * r <= n < (r + 1) * (r + 1)`.
fn int_sqrt(n: usize) -> (r: usize)
    requires
        n <= 65536,
    ensures
        r * r <= n < (r + 1) * (r + 1),
        r <= 256,
{
    let mut r: usize = 0;
    loop
        invariant_except_break
            n <= 65536,
            r <= 256,
            r * r <= n,
        ensures
            r * r <= n < (r + 1) * (r + 1),
            r <= 256,
        decreases 257 - r,
    {
        let rp = r + 1;
        proof {
            assert(rp * rp <= 66049) by (nonlinear_arith)
                requires
                    0 <= rp <= 257,
            ;
        }
        let sq = rp * rp;
        if sq > n {
            break;
        }
        proof {
            assert(rp <= 256) by (nonlinear_arith)
                requires
                    0 <= rp,
                    (rp as int) * (rp as int) <= 65536,
            ;
        }
        r = rp;
    }
    r
}

/// There is only one integer square root: if `r * r <= n < (r + 1) * (r + 1)`
/// and `r * r != n`, then `n` is no perfect square.
proof fn lemma_sqrt_unique(n: int, r: int)
    requires
        0 <= r,
        r * r <= n < (r + 1) * (r + 1),
    ensures
        is_perfect_square(n) ==> r * r == n,
        forall|k: int| 0 <= k && #[trigger] (k * k) == n ==> k == r,
{
    assert forall|k: int| 0 <= k && #[trigger] (k * k) == n implies k == r by {
        assert(k == r) by (nonlinear_arith)
            requires
                0 <= r,
                0 <= k,
                r * r <= k * k < (r + 1) * (r + 1),
        ;
    }
}

/// Fourth powers grow with their base.
proof fn lemma_fourth_power_monotone(a: int, b: int)
    requires
        0 <= a <= b,
    ensures
        a * a * a * a <= b * b * b * b,
{
    assert(a * a * a * a <= b * b * b * b) by (nonlinear_arith)
        requires
            0 <= a <= b,
    ;
}

/// A vector of `n` zero cells.
fn zero_cells(n: usize) -> (r: Vec<u8>)
    ensures
        r@ == Seq::new(n as nat, |i: int| 0u8),
{
    let mut v: Vec<u8> = Vec::new();
    let mut i: usize = 0;
    while i < n
        invariant
            i <= n,
            v@.len() == i,
            forall|j: int| 0 <= j < i ==> v@[j] == 0,
        decreases n - i,
    {
        v.push(0);
        i = i + 1;
    }
    proof {
        assert(v@ =~= Seq::new(n as nat, |i: int| 0u8));
    }
    v
}

} // verus!
