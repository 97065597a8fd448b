use sudoku::csv_parser::parse_cell;
use sudoku::csv_parser::parse_csv;
use sudoku::csv_parser::EXAMPLE;
use sudoku::csv_parser::ParseError;
use sudoku::field::Cell;

#[test]
fn parse_cell_test() {
    assert_eq!(parse_cell("_").unwrap(), Cell::Empty);
    assert_eq!(parse_cell("1").unwrap(), Cell::Known(1));
    assert_eq!(parse_cell("9").unwrap(), Cell::Known(9));

    assert!(parse_cell("0").is_err());
    assert!(parse_cell("42").is_err());
    assert!(parse_cell(" ").is_err());
    assert!(parse_cell("O").is_err());
}

#[test]
fn parse_csv_test() {
    parse_csv(EXAMPLE.into()).expect("Parsing failed");
}

#[test]
fn parse_cell_error_variants() {
    assert_eq!(parse_cell("O"), Err(ParseError::NotANumber));
    assert_eq!(parse_cell(""), Err(ParseError::NotANumber));
    assert_eq!(parse_cell("-1"), Err(ParseError::NotANumber));
    assert_eq!(parse_cell("0"), Err(ParseError::NumberOutOfRange));
    assert_eq!(parse_cell("42"), Err(ParseError::NumberOutOfRange));
    assert_eq!(parse_cell("01"), Ok(Cell::Known(1)));
}

#[test]
fn parse_csv_error_variants() {
    // a line with too few cells
    let short_line = "_,_\n_,_,_,_,_,_,_,_,_";
    assert_eq!(
        parse_csv(short_line.into()),
        Err(ParseError::WrongLineLength)
    );
    // nine well-formed cells per line, but only two lines
    let short_grid = "_,_,_,_,_,_,_,_,_\n_,_,_,_,_,_,_,_,_";
    assert_eq!(parse_csv(short_grid.into()), Err(ParseError::WrongLineCount));
    // a bad cell is reported before the line length
    let bad_cell = "_,x\n_";
    assert_eq!(parse_csv(bad_cell.into()), Err(ParseError::NotANumber));
}

#[test]
fn parse_csv_known_cells_land_in_place() {
    let field = parse_csv(EXAMPLE.into()).expect("Parsing failed");
    assert_eq!(field.cells[0][1], Cell::Known(5));
    assert_eq!(field.cells[0][0], Cell::Empty);
    assert_eq!(field.cells[8][7], Cell::Known(5));
    assert_eq!(field.cells[1][0], Cell::Known(1));
    assert_eq!(field.cells.len(), 9);
    for line in &field.cells {
        assert_eq!(line.len(), 9);
    }
}
