use sudoku::csv_parser::parse_csv;
use sudoku::csv_parser::EXAMPLE;
use sudoku::field::Cell;
use sudoku::solver::check;
use sudoku::solver::find_possibilities;

#[test]
fn solver_find_possibilities_test() {
    let mut field = parse_csv(EXAMPLE.into()).expect("Parsing failed");

    assert_eq!(find_possibilities(&field, 0, 0), Ok(Cell::Possible(vec![2, 4, 6])));
    assert_eq!(find_possibilities(&field, 8, 8), Ok(Cell::Possible(vec![2, 9])));
    assert_eq!(find_possibilities(&field, 5, 3), Ok(Cell::Possible(vec![1, 2, 4, 7])));

    assert_eq!(find_possibilities(&field, 1, 0), Ok(Cell::Known(5)));
    field.cells[3][1] = Cell::Known(3);
    assert_eq!(find_possibilities(&field, 1, 3), Ok(Cell::Known(3)));
}

#[test]
fn solver_check_test() {
    let field = parse_csv(EXAMPLE.into()).expect("Parsing failed");

    assert_eq!(check(8, &field, 3, 8), false); //row
    assert_eq!(check(1, &field, 8, 0), false); //column
    assert_eq!(check(6, &field, 6, 5), false); //block

    assert_eq!(check(7, &field, 7, 7), false);
    assert_eq!(check(3, &field, 1, 4), false);
    assert_eq!(check(4, &field, 3, 3), true);
    assert_eq!(check(2, &field, 4, 1), true);
}
