//! Further behavior tests: round-tripping, exact output layout, error
//! classification, and candidate ordering.

use sudoku_rustic::parse;
use sudoku_rustic::solutions;
use sudoku_rustic::SudokuError;
use sudoku_rustic::SudokuGrid;

#[test]
fn decode_encode_decode_round_trips_9x9() {
    let input = "
            7.9 4.2 8.3
            .5. ... .2.
            ... 653 ...

            1.. 5.7 ..8
            ..7 ... 6..
            89. 1.6 .47

            ..1 .7. 4..
            ..5 ... 7..
            ..4 .8. 3..
        "
    .to_string();
    let first = parse(&input).unwrap();
    let encoded = sudoku_rustic::codec::format(first.clone());
    let second = parse(&encoded).unwrap();
    assert_eq!(first.cells, second.cells);
}

#[test]
fn format_4x4_uses_cell_box_and_row_separators() {
    let grid = SudokuGrid::load(&vec![
        1, 2, 3, 4, //
        4, 3, 2, 1, //
        3, 1, 4, 2, //
        2, 4, 1, 3,
    ])
    .unwrap();
    assert_eq!(sudoku_rustic::codec::format(grid), "1 2  3 4\n4 3  2 1\n\n3 1  4 2\n2 4  1 3\n");
}

#[test]
fn new_accepts_perfect_squares_up_to_16_only() {
    assert!(SudokuGrid::new(0).is_ok());
    assert!(SudokuGrid::new(1).is_ok());
    assert!(SudokuGrid::new(4).is_ok());
    assert!(SudokuGrid::new(9).is_ok());
    assert!(SudokuGrid::new(16).is_ok());
    assert!(matches!(SudokuGrid::new(5), Err(SudokuError::Shape)));
    assert!(matches!(SudokuGrid::new(17), Err(SudokuError::Shape)));
}

#[test]
fn parse_with_bad_cell_count_is_a_shape_error() {
    assert!(matches!(parse("123"), Err(SudokuError::Shape)));
    assert!(matches!(parse("1234 5678"), Err(SudokuError::Shape)));
}

#[test]
fn out_of_range_given_is_a_contradiction_error() {
    let grid = SudokuGrid::load(&vec![
        5, 0, 0, 0, //
        0, 0, 0, 0, //
        0, 0, 0, 0, //
        0, 0, 0, 0,
    ])
    .unwrap();
    assert!(matches!(solutions(&grid), Err(SudokuError::Contradiction)));
}

#[test]
fn clashing_given_is_a_contradiction_error() {
    let grid = parse("1..1\n....\n....\n....").unwrap();
    assert!(matches!(solutions(&grid), Err(SudokuError::Contradiction)));
}

#[test]
fn possibilities_are_ascending_and_never_exclude_own_value() {
    // The cell at index 0 holds 1 with no other given anywhere, so its own
    // value must still be offered as a candidate, in ascending order.
    let grid = SudokuGrid::load(&vec![
        1, 0, 0, 0, //
        0, 0, 0, 0, //
        0, 0, 0, 0, //
        0, 0, 0, 0,
    ])
    .unwrap();
    assert_eq!(grid.possibilities(0), vec![1, 2, 3, 4]);
    // A peer in the same row, column or box does exclude its value.
    assert_eq!(grid.possibilities(1), vec![2, 3, 4]);
    assert_eq!(grid.possibilities(4), vec![2, 3, 4]);
    assert_eq!(grid.possibilities(5), vec![2, 3, 4]);
}

#[test]
fn exhausted_solver_stays_exhausted() {
    let grid = parse("1234\n4321\n3142\n2413").unwrap();
    let mut solver = solutions(&grid).unwrap();
    assert!(solver.next().is_some());
    assert!(solver.next().is_none());
    assert!(solver.next().is_none());
    assert!(solver.next().is_none());
}

#[test]
fn solutions_come_out_smallest_first() {
    // Both boxes of the left column can be completed two ways; trying the
    // smallest candidate first yields the lexicographically smallest grid
    // as the first solution.
    let grid = parse("12..\n43..\n....\n...1").unwrap();
    let mut solver = solutions(&grid).unwrap();
    let first = solver.next().unwrap();
    assert_eq!(first.cells, parse("1234\n4312\n2143\n3421").unwrap().cells);
}
