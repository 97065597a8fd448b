use std::mem;
use sudoku::csv_parser::parse_csv;
use sudoku::csv_parser::EXAMPLE;
use sudoku::field::Cell;
use sudoku::field::Field;
use sudoku::field::BLOCK_SIZE;
use sudoku::field::MAX_NUM;
use sudoku::field::SIZE;

#[test]
fn display_test() {
    let field = parse_csv(EXAMPLE.into()).expect("Parsing failed");
    println!("{}", field.render(1, false));
    assert_eq!(field.render(1, false), "
+-----+-----+-----+
|  5  |9    |3 7  |
|1 8 9|  4  |  6 5|
|3    |     |  4  |
+-----+-----+-----+
|     |  3  |    6|
|  9  |6 8 5|  2  |
|5    |  9  |     |
+-----+-----+-----+
|  4  |     |    1|
|9 3  |  6  |7 8 4|
|  1 8|    3|  5  |
+-----+-----+-----+
")
}

#[test]
/// tests the # flag and width in the format string
fn alternate_display_test() {
    let mut field = parse_csv(EXAMPLE.into()).expect("Parsing failed");
    // Overwrite some cells
    field.cells[0][0] = Cell::Possible(vec![1, 2, 3, 4, 5]);
    field.cells[2][5] = Cell::Possible(vec![3, 1, 4]);
    field.cells[1][1] = Cell::Possible(vec![]);
    // this one doesn't fit. That doesn't look so pretty.
    field.cells[8][8] = Cell::Possible(vec![1, 2, 3, 4, 5, 6, 7, 8, 9]);

    assert_eq!(field.render(5, true), "
+-----+-----+-----+
|12345     5      |    9            |    3     7      |
|    1           9|          4      |          6     5|
|    3            |              314|          4      |
+-----+-----+-----+
|                 |          3      |                6|
|          9      |    6     8     5|          2      |
|    5            |          9      |                 |
+-----+-----+-----+
|          4      |                 |                1|
|    9     3      |          6      |    7     8     4|
|          1     8|                3|          5 123456789|
+-----+-----+-----+
");
}

#[test]
fn constant_assertions() {
    assert_eq!(MAX_NUM, SIZE);
    assert_eq!(BLOCK_SIZE as f64, (SIZE as f64).sqrt());

    // mem::swap on fields should be very cheap,
    // because the cells are heap-allocated.
    assert_eq!(mem::size_of::<Field>(), 24) //three times usize
}

#[test]
fn empty_field_is_all_empty() {
    let field = Field::empty();
    assert_eq!(field.cells.len(), SIZE);
    for line in &field.cells {
        assert_eq!(line.len(), SIZE);
        for cell in line {
            assert_eq!(*cell, Cell::Empty);
        }
    }
}

#[test]
fn new_with_keeps_cells() {
    let cells = vec![vec![Cell::Known(3), Cell::Empty, Cell::Possible(vec![1, 2])]];
    let field = Field::new_with(cells.clone());
    assert_eq!(field.cells, cells);
}
