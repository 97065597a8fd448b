use sudoku::csv_parser::parse_csv;
use sudoku::csv_parser::EXAMPLE;
use sudoku::field::Cell;
use sudoku::solver::possibilities_finder::check;
use sudoku::solver::possibilities_finder::find_possibilities;

#[test]
fn possibilities_finder_find_possibilities_test() {
    let mut field = parse_csv(EXAMPLE.into()).expect("Parsing failed");

    assert_eq!(find_possibilities(&field, 0, 0), Ok((Cell::Possible(vec![2, 4, 6]), 0)));
    assert_eq!(find_possibilities(&field, 8, 8), Ok((Cell::Possible(vec![2, 9]), 0)));
    assert_eq!(find_possibilities(&field, 5, 3), Ok((Cell::Possible(vec![1, 2, 4, 7]), 0)));
    // Solved in find_possibilities
    assert_eq!(find_possibilities(&field, 6, 1), Ok((Cell::Known(2), 1)));
    // Known from beginning
    assert_eq!(find_possibilities(&field, 1, 0), Ok((Cell::Known(5), 0)));
    field.cells[3][1] = Cell::Known(3);
    assert_eq!(find_possibilities(&field, 1, 3), Ok((Cell::Known(3), 0)));
}

#[test]
fn possibilities_finder_check_test() {
    let field = parse_csv(EXAMPLE.into()).expect("Parsing failed");

    assert_eq!(check(8, &field, 3, 8), false); //row
    assert_eq!(check(1, &field, 8, 0), false); //column
    assert_eq!(check(6, &field, 6, 5), false); //block

    assert_eq!(check(7, &field, 7, 7), false);
    assert_eq!(check(3, &field, 1, 4), false);
    assert_eq!(check(4, &field, 3, 3), true);
    assert_eq!(check(2, &field, 4, 1), true);

    // There was an off-by-one error in the row and column scans once:
    // conflicts at the last index must be seen too
    assert_eq!(check(6, &field, 8, 0), false);
    assert_eq!(check(5, &field, 0, 8), false);
    assert_eq!(check(1, &field, 5, 6), false);
}
