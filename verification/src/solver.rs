//! The solving core: candidate computation, hidden-single elimination and
//! the fixpoint driver, plus an earlier, simpler interface to the candidate
//! finder that predates progress reporting.

pub mod laws;
pub mod only_one_eliminator;
pub mod sudoku_solver;
pub mod possibilities_finder;

use vstd::prelude::*;

use crate::field::{Cell, CellV, Field, MAX_NUM, SIZE, grid_wf, vals_of};
use crate::solver::possibilities_finder::{can_place, candidates};

verus! {

/// The one error a solve attempt can end with.
#[derive(Debug, Eq, PartialEq, Clone)]
pub enum SolveError {
    /// The cell at column `x`, line `y` has no candidate value left,
    /// so the puzzle cannot be solved.
    UnsolvablePosition { x: usize, y: usize },
}

/// Find all numbers that fit at the given position, according to the
/// sudoku rules: the cell unchanged if it is already known, else the full
/// list of remaining possibilities. This earlier interface leaves even a
/// lone possibility as a list; turning it into a known cell is the step
/// driver's business.
pub fn find_possibilities(field: &Field, x: usize, y: usize) -> (r: Result<Cell, SolveError>)
    requires
        grid_wf(field@),
        x < SIZE,
        y < SIZE,
    ensures
        ({
            let g = field@;
            let cs = candidates(g, x as int, y as int);
            match r {
                Ok(c) => {
                    &&& (g[y as int][x as int] is Known ==> c@ == g[y as int][x as int])
                    &&& (g[y as int][x as int] !is Known ==> cs.len() >= 1 && c@
                        == CellV::Possible(cs))
                },
                Err(e) => {
                    &&& g[y as int][x as int] !is Known
                    &&& cs.len() == 0
                    &&& e == SolveError::UnsolvablePosition { x, y }
                },
            }
        }),
{
    let ghost cs = candidates(field@, x as int, y as int);
    match crate::solver::possibilities_finder::find_possibilities(field, x, y) {
        Err(e) => Err(e),
        Ok((c, p)) => match c {
            Cell::Known(v) => {
                if p == 1 {
                    // A lone possibility: hand it back as a list of one.
                    let mut vec: Vec<i32> = Vec::new();
                    vec.push(v);
                    proof {
                        assert(vals_of(vec@) =~= cs);
                    }
                    Ok(Cell::Possible(vec))
                } else {
                    Ok(Cell::Known(v))
                }
            },
            Cell::Possible(vec) => Ok(Cell::Possible(vec)),
            Cell::Empty => {
                proof {
                    assert(false);
                }
                vstd::pervasive::unreached()
            },
        },
    }
}

/// For a single number check if that same number is already somewhere in
/// the row, column or block of the given cell position.
pub fn check(num: usize, field: &Field, x: usize, y: usize) -> (r: bool)
    requires
        grid_wf(field@),
        num <= MAX_NUM,
        x < SIZE,
        y < SIZE,
    ensures
        r == can_place(field@, x as int, y as int, num as int),
{
    crate::solver::possibilities_finder::check(num as i32, field, x, y)
}

} // verus!
