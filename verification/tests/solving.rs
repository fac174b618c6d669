//! Tests of candidate computation and of the solver.

use sudoku_rustic::parse;
use sudoku_rustic::solutions;
use sudoku_rustic::SudokuGrid;

fn all_solutions(grid: &SudokuGrid) -> Vec<SudokuGrid> {
    let mut solver = solutions(grid).unwrap();
    let mut found: Vec<SudokuGrid> = Vec::new();
    while let Some(solution) = solver.next() {
        found.push(solution);
    }
    found
}

#[test]
fn given_4x4_grid_possibilities_returns_correct_values() {
    let input = vec![
        1, 2, 0, 0, //
        3, 0, 0, 1, //
        2, 0, 0, 4, //
        4, 0, 0, 0,
    ];
    let grid = SudokuGrid::load(&input).unwrap();
    assert_eq!(grid.possibilities(0), vec![1], "index 0");
    assert_eq!(grid.possibilities(1), vec![2, 4], "index 1");
    assert_eq!(grid.possibilities(2), vec![3, 4], "index 2");
    assert_eq!(grid.possibilities(3), vec![3], "index 3");

    assert_eq!(grid.possibilities(4), vec![3], "index 4");
    assert_eq!(grid.possibilities(5), vec![4], "index 5");
    assert_eq!(grid.possibilities(6), vec![2, 4], "index 6");
    assert_eq!(grid.possibilities(7), vec![1, 2], "index 7");

    assert_eq!(grid.possibilities(8), vec![2], "index 8");
    assert_eq!(grid.possibilities(9), vec![1, 3], "index 9");
    assert_eq!(grid.possibilities(10), vec![1, 3], "index 10");
    assert_eq!(grid.possibilities(11), vec![3, 4], "index 11");

    assert_eq!(grid.possibilities(12), vec![4], "index 12");
    assert_eq!(grid.possibilities(13), vec![1, 3], "index 13");
    assert_eq!(grid.possibilities(14), vec![1, 2, 3], "index 14");
    assert_eq!(grid.possibilities(15), vec![2, 3], "index 15");
}

#[test]
fn given_9x9_grid_posibilites_returns_correct_for_selected() {
    let input = "
            7.9 4.2 8.3
            .5. ... .2.
            ... 653 ...

            1.. 5.7 ..8
            ..7 ... 6..
            89. 1.6 .47

            ..1 .7. 4..
            ..5 ... 7..
            ..4 .8. 3..
        "
    .to_string();
    let grid = parse(&input).unwrap();
    assert_eq!(grid.possibilities(4), vec![1], "index 4: top row, middlest column");
    assert_eq!(grid.possibilities(26), vec![1, 4, 9], "index 26: third row, last column");
    assert_eq!(grid.possibilities(80), vec![1, 2, 5, 6, 9], "index 80: last row, last column");
}

#[test]
fn given_9x9_grid_solutions_is_one_solution_which_is_correct() {
    let input = "
            7.9 4.2 8.3
            .5. ... .2.
            ... 653 ...

            1.. 5.7 ..8
            ..7 ... 6..
            89. 1.6 .47

            ..1 .7. 4..
            ..5 ... 7..
            ..4 .8. 3..
        "
    .to_string();
    let answer_key_input = "
            769 412 853
            453 798 126
            218 653 974

            136 547 298
            547 829 631
            892 136 547

            621 375 489
            385 964 712
            974 281 365
        "
    .to_string();
    let grid = parse(&input).unwrap();
    let answer_key = parse(&answer_key_input).unwrap();
    let mut solution_iterator = solutions(&grid).unwrap();
    let first_solution = solution_iterator.next();
    let second_solution = solution_iterator.next();
    assert!(second_solution.is_none());
    assert!(first_solution.is_some());
    assert_eq!(answer_key.cells, first_solution.unwrap().cells);
}

#[test]
fn given_contradictory_4x4_grid_should_get_no_solution_iterator() {
    let input = "
        1234
        4321
        .2..
        ....
        "
    .to_string();
    let grid = parse(&input).unwrap();
    let solution_iterator = solutions(&grid);
    assert!(solution_iterator.is_err());
}

#[test]
fn given_already_solved_4x4_grid_should_return_it() {
    let input = "
        1234
        4321
        3142
        2413
        "
    .to_string();
    let grid = parse(&input).unwrap();

    let mut solution_iterator = solutions(&grid).unwrap();
    let first_solution = solution_iterator.next();
    let second_solution = solution_iterator.next();
    assert!(second_solution.is_none(), "no second solution!");
    assert!(first_solution.is_some(), "has a solution");
    assert_eq!(grid.cells, first_solution.unwrap().cells);
}

#[test]
fn given_particular_4x4_grid_should_return_three_solutions() {
    let input = "
        12..
        43..
        ....
        ...1
        "
    .to_string();
    let grid = parse(&input).unwrap();

    let solutions_vec: Vec<SudokuGrid> = all_solutions(&grid);
    assert_eq!(3, solutions_vec.len());
}

#[test]
fn given_particular_4x4_grid_should_return_just_one_correct_solution() {
    let input = "
        .234
        43..
        ....
        ...1
        "
    .to_string();
    let answer_key_input = "
        1234
        4312
        2143
        3421
        "
    .to_string();
    let grid = parse(&input).unwrap();
    let answer_key = parse(&answer_key_input).unwrap();
    let mut solutions_vec: Vec<SudokuGrid> = all_solutions(&grid);
    assert_eq!(1, solutions_vec.len());
    let the_solution = solutions_vec.pop().unwrap();
    assert_eq!(answer_key.cells, the_solution.cells);
}

#[test]
fn given_0x0_grid_solve_shall_return_no_solutions() {
    let grid = SudokuGrid::load(&Vec::new()).unwrap();
    let solutions_vec: Vec<SudokuGrid> = all_solutions(&grid);
    assert_eq!(0, solutions_vec.len());
}

#[test]
fn given_1x1_grid_solve_shall_return_1x1_grid_with_1_in_cell() {
    let grid = SudokuGrid::load(&vec![0]).unwrap();
    let mut solutions_vec: Vec<SudokuGrid> = all_solutions(&grid);
    assert_eq!(1, solutions_vec.len());
    let the_solution = solutions_vec.pop().unwrap();
    assert_eq!(vec![1], the_solution.cells);
}
