use sudoku::csv_parser::parse_csv;
use sudoku::csv_parser::EXAMPLE;
use sudoku::field::Cell;
use sudoku::field::Field;
use sudoku::field::SIZE;
use sudoku::solver::only_one_eliminator::unique_in_line_column_or_block;
use sudoku::solver::sudoku_solver::solve_step;
use sudoku::solver::sudoku_solver::solve_sudoku;
use sudoku::solver::sudoku_solver::try_solve_possibilities;
use sudoku::solver::SolveError;

/// The value at (x, y) if the cell is known.
fn known_value(field: &Field, x: usize, y: usize) -> Option<i32> {
    match &field.cells[y][x] {
        Cell::Known(v) => Some(*v),
        _ => None,
    }
}

fn assert_no_conflicts(field: &Field) {
    for y1 in 0..SIZE {
        for x1 in 0..SIZE {
            for y2 in 0..SIZE {
                for x2 in 0..SIZE {
                    if (x1, y1) == (x2, y2) {
                        continue;
                    }
                    let same_row = y1 == y2;
                    let same_col = x1 == x2;
                    let same_block =
                        x1 / 3 == x2 / 3 && y1 / 3 == y2 / 3;
                    if !(same_row || same_col || same_block) {
                        continue;
                    }
                    if let (Some(v1), Some(v2)) =
                        (known_value(field, x1, y1), known_value(field, x2, y2))
                    {
                        assert_ne!(
                            v1, v2,
                            "conflict at ({},{}) and ({},{})",
                            x1, y1, x2, y2
                        );
                    }
                }
            }
        }
    }
}

#[test]
fn determinism_scenario() {
    let a = solve_sudoku(parse_csv(EXAMPLE.into()).unwrap()).unwrap();
    let b = solve_sudoku(parse_csv(EXAMPLE.into()).unwrap()).unwrap();
    assert_eq!(a.cells, b.cells);

    let field = parse_csv(EXAMPLE.into()).unwrap();
    let mut out1 = Field::empty();
    let mut out2 = Field::empty();
    let p1 = solve_step(&field, &mut out1).unwrap();
    let p2 = solve_step(&field, &mut out2).unwrap();
    assert_eq!(p1, p2);
    assert_eq!(out1.cells, out2.cells);
}

#[test]
fn conservativeness_scenario() {
    let input = parse_csv(EXAMPLE.into()).unwrap();
    let clues: Vec<(usize, usize, i32)> = (0..SIZE)
        .flat_map(|y| (0..SIZE).map(move |x| (x, y)))
        .filter_map(|(x, y)| known_value(&input, x, y).map(|v| (x, y, v)))
        .collect();
    let solved = solve_sudoku(input).unwrap();
    for (x, y, v) in clues {
        assert_eq!(known_value(&solved, x, y), Some(v));
    }
}

#[test]
fn candidate_shrinkage_scenario() {
    let field = parse_csv(EXAMPLE.into()).unwrap();
    let mut after_one = Field::empty();
    solve_step(&field, &mut after_one).unwrap();
    let mut after_two = Field::empty();
    solve_step(&after_one, &mut after_two).unwrap();

    let mut open_cells = 0;
    for y in 0..SIZE {
        for x in 0..SIZE {
            if let (Cell::Possible(older), Cell::Possible(newer)) =
                (&after_one.cells[y][x], &after_two.cells[y][x])
            {
                open_cells += 1;
                for v in newer {
                    assert!(older.contains(v), "candidate {} reappeared at ({},{})", v, x, y);
                }
            }
        }
    }
    // the example takes several sweeps, so some cells are still open here
    assert!(open_cells > 0);
}

#[test]
fn no_conflicts_in_solved_example() {
    let solved = solve_sudoku(parse_csv(EXAMPLE.into()).unwrap()).unwrap();
    assert_no_conflicts(&solved);
}

#[test]
fn duplicate_clues_in_row_are_unsolvable() {
    // two 5s in the first row; together with the 1 and the 9 in column 4
    // the cell at (4,0) has no candidate left
    let grid = "5,2,3,4,_,6,7,8,5
_,_,_,_,_,_,_,_,_
_,_,_,_,_,_,_,_,_
_,_,_,_,_,_,_,_,_
_,_,_,_,1,_,_,_,_
_,_,_,_,_,_,_,_,_
_,_,_,_,_,_,_,_,_
_,_,_,_,_,_,_,_,_
_,_,_,_,9,_,_,_,_";
    let field = parse_csv(grid.into()).expect("Parsing failed");
    assert_eq!(
        solve_sudoku(field),
        Err(SolveError::UnsolvablePosition { x: 4, y: 0 })
    );
}

#[test]
fn fixpoint_is_idempotent() {
    // run the loop to its fixpoint, then sweep the result twice more
    let solved = solve_sudoku(parse_csv(EXAMPLE.into()).unwrap()).unwrap();
    let mut once = Field::empty();
    assert_eq!(solve_step(&solved, &mut once).unwrap(), 0);
    let mut twice = Field::empty();
    assert_eq!(solve_step(&once, &mut twice).unwrap(), 0);
    assert_eq!(once.cells, twice.cells);

    // the same on a puzzle that elimination alone cannot finish
    let sparse = "1,_,_,_,_,_,_,_,_
_,_,_,_,_,_,_,_,_
_,_,_,_,_,_,_,_,_
_,_,_,_,_,_,_,_,_
_,_,_,_,2,_,_,_,_
_,_,_,_,_,_,_,_,_
_,_,_,_,_,_,_,_,_
_,_,_,_,_,_,_,_,_
_,_,_,_,_,_,_,_,_";
    let stuck = solve_sudoku(parse_csv(sparse.into()).unwrap()).unwrap();
    let mut again = Field::empty();
    assert_eq!(solve_step(&stuck, &mut again).unwrap(), 0);
}

#[test]
fn stale_candidate_lists_can_hide_singles() {
    // columns 1..=8 each hold the clue 1 somewhere below row 0, in eight
    // different rows and blocks, so the value 1 is a hidden single at
    // (0,0). The first sweep cannot see it: every neighbour is still
    // unclassified and conservatively counts as capable, so the sweep
    // reports zero progress and the solve loop stops. A further sweep of
    // that output, whose candidate lists are fresh, does resolve the
    // cell; this is why idempotence of the zero-progress sweep holds for
    // fresh grids only.
    let grid = "_,_,_,_,_,_,_,_,_
_,_,_,1,_,_,_,_,_
_,_,_,_,_,_,1,_,_
_,1,_,_,_,_,_,_,_
_,_,_,_,1,_,_,_,_
_,_,_,_,_,_,_,1,_
_,_,1,_,_,_,_,_,_
_,_,_,_,_,1,_,_,_
_,_,_,_,_,_,_,_,1";
    let field = parse_csv(grid.into()).expect("Parsing failed");
    let mut first = Field::empty();
    assert_eq!(solve_step(&field, &mut first).unwrap(), 0);
    let mut second = Field::empty();
    assert!(solve_step(&first, &mut second).unwrap() >= 1);
    assert_eq!(second.cells[0][0], Cell::Known(1));
}

#[test]
fn hidden_single_is_detected() {
    // every other cell of row 0, column 0 and the first block is known,
    // so any candidate is unique in all three groups at (0,0)
    let mut cells = vec![vec![Cell::Known(7); SIZE]; SIZE];
    cells[0][0] = Cell::Possible(vec![5]);
    let field = Field::new_with(cells);
    assert!(unique_in_line_column_or_block(5, &field, 0, 0));
    assert_eq!(
        try_solve_possibilities(vec![5], &field, 0, 0),
        Ok((Cell::Known(5), 1))
    );

    // another open cell in the row, the column and the block that could
    // take the value blocks all three groups
    let mut cells = vec![vec![Cell::Known(7); SIZE]; SIZE];
    cells[0][0] = Cell::Possible(vec![5, 6]);
    cells[0][5] = Cell::Possible(vec![5, 6]); // same row
    cells[5][0] = Cell::Possible(vec![5, 6]); // same column
    cells[1][1] = Cell::Possible(vec![5, 6]); // same block
    let field = Field::new_with(cells);
    assert!(!unique_in_line_column_or_block(5, &field, 0, 0));
    assert_eq!(
        try_solve_possibilities(vec![5, 6], &field, 0, 0),
        Ok((Cell::Possible(vec![5, 6]), 0))
    );
}
