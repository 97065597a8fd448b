use std::mem;
use sudoku::csv_parser::parse_csv;
use sudoku::csv_parser::EXAMPLE;
use sudoku::field::Cell;
use sudoku::field::Field;
use sudoku::field::SIZE;
use sudoku::solver::sudoku_solver::solve_step;
use sudoku::solver::sudoku_solver::solve_sudoku;

#[test]
fn sudoku_solver_solve_example_completely() {
    let field = parse_csv(EXAMPLE.into()).expect("Parsing failed");
    let solved = solve_sudoku(field).unwrap();

    for line in &solved.cells {
        for cell in line {
            match cell {
                Cell::Known(_) => {}
                c => panic!("Sudoku isn't fully solved. Cell = {:?}", c),
            }
        }
    }
}

#[test]
fn sudoku_solver_solve_step_test() {
    let mut field = parse_csv(EXAMPLE.into()).expect("Parsing failed");
    let mut new_field = Field::empty();

    let progress = solve_step(&field, &mut new_field).unwrap();
    assert!(progress >= 1);
    assert_eq!(new_field.cells[1][6], Cell::Known(2));

    // It can't solve more cells than total cells,
    // otherwise counting doesn't work.
    let mut total_progress = 0;
    for _ in 0..SIZE * SIZE {
        let progress = solve_step(&field, &mut new_field).unwrap();
        mem::swap(&mut field, &mut new_field);
        total_progress += progress;
    }
    assert!(total_progress as usize <= SIZE * SIZE);
    // more heuristic:
    assert!(total_progress <= 70);
}
