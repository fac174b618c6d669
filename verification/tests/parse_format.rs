//! Tests of the text codec: single elements both ways, and whole grids.

use sudoku_rustic::format_element;
use sudoku_rustic::parse_element;
use sudoku_rustic::SudokuGrid;

#[test]
fn given_nonsense_parse_element_should_return_none() {
    assert_eq!(parse_element('/'), None);
    assert_eq!(parse_element('\n'), None);
    assert_eq!(parse_element('-'), None);
    assert_eq!(parse_element('|'), None);
    assert_eq!(parse_element(';'), None);
    assert_eq!(parse_element('*'), None);
    assert_eq!(parse_element(' '), None);
    assert_eq!(parse_element('Å'), None);
}

#[test]
fn given_0_format_element_should_return_dot() {
    assert_eq!(format_element(0), ".");
}

#[test]
fn given_dot_parse_element_should_return_0() {
    assert_eq!(parse_element('.'), Some(0));
}

#[test]
fn given_0_parse_element_should_return_0() {
    assert_eq!(parse_element('0'), Some(0));
}

#[test]
fn given_1_format_element_should_return_string_1() {
    assert_eq!(format_element(1), "1");
}

#[test]
fn given_1_parse_element_should_return_1() {
    assert_eq!(parse_element('1'), Some(1));
}

#[test]
fn given_9_format_element_should_return_string_9() {
    assert_eq!(format_element(9), "9");
}

#[test]
fn given_9_parse_element_should_return_9() {
    assert_eq!(parse_element('9'), Some(9));
}

#[test]
fn given_10_format_element_should_return_big_a() {
    assert_eq!(format_element(10), "A");
}

#[test]
fn given_big_a_parse_element_should_return_10() {
    assert_eq!(parse_element('A'), Some(10));
}

#[test]
fn given_16_format_element_should_return_big_g() {
    assert_eq!(format_element(16), "G");
}

#[test]
fn given_big_g_parse_element_should_return_16() {
    assert_eq!(parse_element('G'), Some(16));
}

#[test]
fn given_35_format_element_should_return_big_z() {
    assert_eq!(format_element(35), "Z");
}

#[test]
fn given_big_z_parse_element_should_return_35() {
    assert_eq!(parse_element('Z'), Some(35));
}

#[test]
fn given_36_format_element_should_return_small_a() {
    assert_eq!(format_element(36), "a");
}

#[test]
fn given_small_a_parse_element_should_return_36() {
    assert_eq!(parse_element('a'), Some(36));
}

#[test]
fn given_61_format_element_should_return_small_z() {
    assert_eq!(format_element(61), "z");
}

#[test]
fn given_small_z_parse_element_should_return_61() {
    assert_eq!(parse_element('z'), Some(61));
}

#[test]
fn given_0x0_grid_format_shall_return_empty_string() {
    let grid = SudokuGrid::load(&Vec::new()).unwrap();
    let result = sudoku_rustic::codec::format(grid);
    assert_eq!("", result);
}

#[test]
fn given_1x1_grid_format_shall_return_1_as_string() {
    let grid = SudokuGrid::load(&vec![1]).unwrap();
    let result = sudoku_rustic::codec::format(grid);
    assert_eq!("1\n", result);
}
