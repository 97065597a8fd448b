//! The step driver and the solve loop: one sweep recomputes every cell of
//! the field from the previous field alone, and the loop repeats sweeps,
//! swapping the two buffers, until a sweep resolves no further cell.

use vstd::prelude::*;

use crate::field::{Cell, CellV, Field, GridV, SIZE, grid_wf, vals_of};
use crate::solver::SolveError;
use crate::solver::only_one_eliminator::{forced_at, unique_in_line_column_or_block};
use crate::solver::possibilities_finder::{candidates, find_possibilities};
use vstd::pervasive::unreached;

verus! {

/// The first value of `vals` (in order) that is forced into (x, y), if any.
pub open spec fn first_forced(g: GridV, x: int, y: int, vals: Seq<int>) -> Option<int>
    decreases vals.len(),
{
    if vals.len() == 0 {
        None
    } else if forced_at(g, x, y, vals[0]) {
        Some(vals[0])
    } else {
        first_forced(g, x, y, vals.drop_first())
    }
}

/// Scanning for a forced value may start behind a prefix of values that are
/// not forced.
proof fn lemma_first_forced_skip(g: GridV, x: int, y: int, vals: Seq<int>, k: int)
    requires
        0 <= k <= vals.len(),
        forall|kk: int| 0 <= kk < k ==> !forced_at(g, x, y, vals[kk]),
    ensures
        first_forced(g, x, y, vals.skip(k)) == first_forced(g, x, y, vals),
    decreases k,
{
    if k == 0 {
        assert(vals.skip(0) =~= vals);
    } else {
        lemma_first_forced_skip(g, x, y, vals, k - 1);
        assert(vals.skip(k - 1)[0] == vals[k - 1]);
        assert(vals.skip(k - 1).drop_first() =~= vals.skip(k));
    }
}

/// The cell at (x, y) either is known or still has a candidate left.
pub open spec fn cell_ok(g: GridV, x: int, y: int) -> bool {
    g[y][x] is Known || candidates(g, x, y).len() >= 1
}

/// What one sweep writes at (x, y): a known cell is copied, a lone
/// candidate or a hidden single becomes known, anything else stays open
/// with the freshly computed candidates. (Meaningful only where
/// `cell_ok` holds; a cell without candidates aborts the sweep instead.)
pub open spec fn sweep_cell(g: GridV, x: int, y: int) -> CellV {
    if g[y][x] is Known {
        g[y][x]
    } else {
        let cs = candidates(g, x, y);
        if cs.len() == 1 {
            CellV::Known(cs[0])
        } else {
            match first_forced(g, x, y, cs) {
                Some(v) => CellV::Known(v),
                None => CellV::Possible(cs),
            }
        }
    }
}

/// The grid one sweep produces.
pub open spec fn sweep_grid(g: GridV) -> GridV {
    Seq::new(SIZE as nat, |y: int| Seq::new(SIZE as nat, |x: int| sweep_cell(g, x, y)))
}

/// 1 if the sweep resolves the cell at (x, y), else 0.
pub open spec fn cell_progress(g: GridV, x: int, y: int) -> int {
    if g[y][x] is Known {
        0
    } else if sweep_cell(g, x, y) is Known {
        1
    } else {
        0
    }
}

/// Cells resolved by the sweep in row `y`, columns 0..n.
pub open spec fn row_progress_upto(g: GridV, y: int, n: int) -> int
    decreases n,
{
    if n <= 0 {
        0
    } else {
        row_progress_upto(g, y, n - 1) + cell_progress(g, n - 1, y)
    }
}

/// Cells resolved by the sweep in rows 0..m.
pub open spec fn progress_upto(g: GridV, m: int) -> int
    decreases m,
{
    if m <= 0 {
        0
    } else {
        progress_upto(g, m - 1) + row_progress_upto(g, m - 1, SIZE as int)
    }
}

/// How many cells one sweep of the whole grid resolves.
pub open spec fn sweep_progress(g: GridV) -> int {
    progress_upto(g, SIZE as int)
}

pub(crate) proof fn lemma_row_progress_bounds(g: GridV, y: int, n: int)
    requires
        n >= 0,
    ensures
        0 <= row_progress_upto(g, y, n) <= n,
    decreases n,
{
    if n > 0 {
        lemma_row_progress_bounds(g, y, n - 1);
    }
}

pub(crate) proof fn lemma_progress_bounds(g: GridV, m: int)
    requires
        m >= 0,
    ensures
        0 <= progress_upto(g, m) <= m * (SIZE as int),
    decreases m,
{
    if m > 0 {
        lemma_progress_bounds(g, m - 1);
        lemma_row_progress_bounds(g, m - 1, SIZE as int);
    }
}

/// The first column at or after `x` of row `y` whose cell has no candidate
/// left, if any.
pub open spec fn first_bad_in_row_from(g: GridV, y: int, x: int) -> Option<int>
    decreases SIZE - x
        when x <= SIZE
{
    if x >= SIZE {
        None
    } else if !cell_ok(g, x, y) {
        Some(x)
    } else {
        first_bad_in_row_from(g, y, x + 1)
    }
}

/// The first position in scan order (line by line, at or after row `y`)
/// whose cell has no candidate left, if any.
pub open spec fn first_bad_from_row(g: GridV, y: int) -> Option<(int, int)>
    decreases SIZE - y
        when y <= SIZE
{
    if y >= SIZE {
        None
    } else {
        match first_bad_in_row_from(g, y, 0) {
            Some(x) => Some((x, y)),
            None => first_bad_from_row(g, y + 1),
        }
    }
}

/// The position where a sweep fails: the first cell in scan order with no
/// candidate left, if any.
pub open spec fn first_bad_pos(g: GridV) -> Option<(int, int)> {
    first_bad_from_row(g, 0)
}

pub(crate) proof fn lemma_first_bad_in_row_skip(g: GridV, y: int, x: int)
    requires
        0 <= x <= SIZE,
        forall|xx: int| 0 <= xx < x ==> cell_ok(g, xx, y),
    ensures
        first_bad_in_row_from(g, y, 0) == first_bad_in_row_from(g, y, x),
    decreases x,
{
    if x > 0 {
        lemma_first_bad_in_row_skip(g, y, x - 1);
    }
}

pub(crate) proof fn lemma_first_bad_row_skip(g: GridV, y: int)
    requires
        0 <= y <= SIZE,
        forall|yy: int| 0 <= yy < y ==> first_bad_in_row_from(g, yy, 0) is None,
    ensures
        first_bad_pos(g) == first_bad_from_row(g, y),
    decreases y,
{
    if y > 0 {
        lemma_first_bad_row_skip(g, y - 1);
        assert(first_bad_in_row_from(g, y - 1, 0) is None);
    }
}

/// 1 if the cell value is known, else 0.
pub open spec fn known_flag(c: CellV) -> int {
    if c is Known {
        1
    } else {
        0
    }
}

/// Known cells of row `y`, columns 0..n.
pub open spec fn row_known_upto(g: GridV, y: int, n: int) -> int
    decreases n,
{
    if n <= 0 {
        0
    } else {
        row_known_upto(g, y, n - 1) + known_flag(g[y][n - 1])
    }
}

/// Known cells of rows 0..m.
pub open spec fn known_upto(g: GridV, m: int) -> int
    decreases m,
{
    if m <= 0 {
        0
    } else {
        known_upto(g, m - 1) + row_known_upto(g, m - 1, SIZE as int)
    }
}

/// How many cells of the grid hold a known value.
pub open spec fn known_count(g: GridV) -> int {
    known_upto(g, SIZE as int)
}

proof fn lemma_row_known_bounds(g: GridV, y: int, n: int)
    requires
        n >= 0,
    ensures
        0 <= row_known_upto(g, y, n) <= n,
    decreases n,
{
    if n > 0 {
        lemma_row_known_bounds(g, y, n - 1);
    }
}

proof fn lemma_known_upto_bounds(g: GridV, m: int)
    requires
        m >= 0,
    ensures
        0 <= known_upto(g, m) <= m * (SIZE as int),
    decreases m,
{
    if m > 0 {
        lemma_known_upto_bounds(g, m - 1);
        lemma_row_known_bounds(g, m - 1, SIZE as int);
    }
}

/// A grid holds between 0 and SIZE*SIZE known cells.
pub proof fn lemma_known_count_bounds(g: GridV)
    ensures
        0 <= known_count(g) <= (SIZE * SIZE) as int,
{
    lemma_known_upto_bounds(g, SIZE as int);
}

proof fn lemma_sweep_row_known(g: GridV, y: int, n: int)
    requires
        0 <= y < SIZE,
        0 <= n <= SIZE,
    ensures
        row_known_upto(sweep_grid(g), y, n) == row_known_upto(g, y, n) + row_progress_upto(
            g,
            y,
            n,
        ),
    decreases n,
{
    if n > 0 {
        lemma_sweep_row_known(g, y, n - 1);
        assert(sweep_grid(g)[y][n - 1] == sweep_cell(g, n - 1, y));
    }
}

proof fn lemma_sweep_known_upto(g: GridV, m: int)
    requires
        0 <= m <= SIZE,
    ensures
        known_upto(sweep_grid(g), m) == known_upto(g, m) + progress_upto(g, m),
    decreases m,
{
    if m > 0 {
        lemma_sweep_known_upto(g, m - 1);
        lemma_sweep_row_known(g, m - 1, SIZE as int);
    }
}

/// A sweep's progress count is exactly the growth of the number of known
/// cells: known cells are copied, and each resolved cell adds one.
pub proof fn lemma_sweep_known_count(g: GridV)
    ensures
        known_count(sweep_grid(g)) == known_count(g) + sweep_progress(g),
{
    lemma_sweep_known_upto(g, SIZE as int);
}

/// The whole solve run as one mathematical value: sweep after sweep until
/// a sweep makes no progress (then the result is that sweep's grid) or a
/// cell runs out of candidates (then the result is that cell's position).
/// `fuel` bounds the number of sweeps; every fuel of at least
/// `82 - known_count(g)` yields the same result, because each continuing
/// sweep resolves at least one of at most 81 cells.
pub open spec fn solve_from(g: GridV, fuel: nat) -> Result<GridV, (int, int)>
    decreases fuel,
{
    match first_bad_pos(g) {
        Some(pos) => Err(pos),
        None => {
            if sweep_progress(g) == 0 || fuel == 0 {
                Ok(sweep_grid(g))
            } else {
                solve_from(sweep_grid(g), (fuel - 1) as nat)
            }
        },
    }
}

/// With enough fuel, the fuel does not matter.
pub proof fn lemma_solve_from_fuel(g: GridV, f1: nat, f2: nat)
    requires
        known_count(g) + f1 >= 82,
        known_count(g) + f2 >= 82,
    ensures
        solve_from(g, f1) == solve_from(g, f2),
    decreases f1,
{
    if first_bad_pos(g) is None && sweep_progress(g) != 0 {
        lemma_known_count_bounds(g);
        lemma_progress_bounds(g, SIZE as int);
        lemma_sweep_known_count(g);
        assert(f1 >= 1 && f2 >= 1);
        lemma_solve_from_fuel(sweep_grid(g), (f1 - 1) as nat, (f2 - 1) as nat);
    }
}

/// Try the hidden-single rule on a cell whose remaining possibilities are
/// given: the first possibility that no other cell of a row, column or
/// block could take is forced here and resolves the cell; otherwise the
/// possibilities are handed back unchanged.
pub fn try_solve_possibilities(possibilities: Vec<i32>, field: &Field, x: usize, y: usize) -> (r:
    Result<(Cell, i32), SolveError>)
    requires
        grid_wf(field@),
        x < SIZE,
        y < SIZE,
    ensures
        ({
            let vals = vals_of(possibilities@);
            match first_forced(field@, x as int, y as int, vals) {
                Some(v) => r matches Ok(cp) && cp.0@ == CellV::Known(v) && cp.1 == 1,
                None => r matches Ok(cp) && cp.0@ == CellV::Possible(vals) && cp.1 == 0,
            }
        }),
{
    let ghost vals = vals_of(possibilities@);
    let mut k: usize = 0;
    while k < possibilities.len()
        invariant
            grid_wf(field@),
            x < SIZE,
            y < SIZE,
            k <= possibilities.len(),
            vals == vals_of(possibilities@),
            forall|kk: int| 0 <= kk < k ==> !forced_at(field@, x as int, y as int, vals[kk]),
        decreases possibilities.len() - k,
    {
        let num = possibilities[k];
        if unique_in_line_column_or_block(num, field, x, y) {
            proof {
                lemma_first_forced_skip(field@, x as int, y as int, vals, k as int);
                assert(vals.skip(k as int)[0] == vals[k as int]);
            }
            return Ok((Cell::Known(num), 1));
        }
        k = k + 1;
    }
    proof {
        lemma_first_forced_skip(field@, x as int, y as int, vals, vals.len() as int);
        assert(vals.skip(vals.len() as int).len() == 0);
    }
    // Needed to move the vec back.
    Ok((Cell::Possible(possibilities), 0))
}

/// Do one iteration to try to solve the sudoku: first find all
/// possibilities, then resolve a lone possibility or a hidden single into
/// `Cell::Known`, writing every result into a freshly built grid that
/// replaces `new_field`. Returns the number of newly solved cells; a cell
/// without any possibility left aborts the sweep with its position and
/// leaves `new_field` unchanged.
pub fn solve_step(field: &Field, new_field: &mut Field) -> (r: Result<i32, SolveError>)
    requires
        grid_wf(field@),
    ensures
        ({
            let g = field@;
            match r {
                Ok(p) => {
                    &&& first_bad_pos(g) is None
                    &&& final(new_field)@ == sweep_grid(g)
                    &&& grid_wf(final(new_field)@)
                    &&& p == sweep_progress(g)
                },
                Err(e) => {
                    &&& e matches SolveError::UnsolvablePosition { x, y } && first_bad_pos(g)
                        == Some((x as int, y as int))
                    &&& *final(new_field) == *old(new_field)
                },
            }
        }),
{
    let ghost g = field@;
    let mut cells: Vec<Vec<Cell>> = Vec::new();
    let mut new_known_cells: i32 = 0;
    let mut y: usize = 0;
    while y < SIZE
        invariant
            grid_wf(field@),
            g == field@,
            y <= SIZE,
            cells@.len() == y,
            *new_field == *old(new_field),
            forall|yy: int| 0 <= yy < y ==> first_bad_in_row_from(g, yy, 0) is None,
            forall|yy: int| #![trigger cells@[yy]]
                0 <= yy < y ==> {
                    &&& cells@[yy]@.len() == SIZE
                    &&& forall|xx: int|
                        0 <= xx < SIZE ==> #[trigger] cells@[yy]@[xx]@ == sweep_cell(g, xx, yy)
                },
            new_known_cells == progress_upto(g, y as int),
            0 <= new_known_cells <= 81,
        decreases SIZE - y,
    {
        let mut line: Vec<Cell> = Vec::new();
        let mut x: usize = 0;
        while x < SIZE
            invariant
                grid_wf(field@),
                g == field@,
                y < SIZE,
                x <= SIZE,
                line@.len() == x,
                *new_field == *old(new_field),
                forall|yy: int| 0 <= yy < y ==> first_bad_in_row_from(g, yy, 0) is None,
                forall|xx: int| 0 <= xx < x ==> cell_ok(g, xx, y as int),
                forall|xx: int|
                    0 <= xx < x ==> #[trigger] line@[xx]@ == sweep_cell(g, xx, y as int),
                new_known_cells == progress_upto(g, y as int) + row_progress_upto(
                    g,
                    y as int,
                    x as int,
                ),
                0 <= new_known_cells <= 81,
            decreases SIZE - x,
        {
            proof {
                lemma_progress_bounds(g, y as int);
                lemma_row_progress_bounds(g, y as int, x as int);
            }
            // 1. What numbers are allowed here?
            let cp = match find_possibilities(field, x, y) {
                Ok(t) => t,
                Err(e) => {
                    proof {
                        lemma_first_bad_in_row_skip(g, y as int, x as int);
                        lemma_first_bad_row_skip(g, y as int);
                    }
                    return Err(e);
                },
            };
            let (c, p1) = cp;
            // 2. Convert a single possibility, or a hidden single, to Known.
            match c {
                Cell::Empty => {
                    // The possibilities finder never yields an
                    // unclassified cell.
                    proof {
                        assert(c@ is Empty);
                        assert(false);
                    }
                    return unreached();
                },
                Cell::Known(_) => {
                    proof {
                        assert(c@ is Known);
                        assert(c@ == sweep_cell(g, x as int, y as int));
                        assert(p1 == cell_progress(g, x as int, y as int));
                    }
                    line.push(c);
                    new_known_cells = new_known_cells + p1;
                },
                Cell::Possible(vec) => {
                    proof {
                        assert(c@ == CellV::Possible(vals_of(vec@)));
                        assert(vals_of(vec@) == candidates(g, x as int, y as int));
                    }
                    // 3. Is this the only cell in a row/column/block where
                    // a number is possible?
                    let cp2 = match try_solve_possibilities(vec, field, x, y) {
                        Ok(t) => t,
                        Err(_) => {
                            proof {
                                assert(false);
                            }
                            return unreached();
                        },
                    };
                    let (c2, p2) = cp2;
                    proof {
                        assert(c2@ == sweep_cell(g, x as int, y as int));
                        assert(p2 == cell_progress(g, x as int, y as int));
                    }
                    line.push(c2);
                    new_known_cells = new_known_cells + p2;
                },
            }
            x = x + 1;
        }
        proof {
            lemma_first_bad_in_row_skip(g, y as int, SIZE as int);
        }
        cells.push(line);
        y = y + 1;
    }
    proof {
        lemma_first_bad_row_skip(g, SIZE as int);
    }
    new_field.cells = cells;
    proof {
        assert forall|yy: int| 0 <= yy < SIZE implies new_field@[yy] =~= sweep_grid(g)[yy] by {
            assert(new_field@[yy] == cells@[yy]@.map_values(|c: Cell| c@));
        }
        assert(new_field@ =~~= sweep_grid(g));
    }
    Ok(new_known_cells)
}

/// Solve the sudoku by sweeping until a sweep makes no progress, swapping
/// the two grid buffers between sweeps. The returned field is the last
/// sweep's output, fully solved or stuck with open cells left; a cell that
/// runs out of candidates ends the solve with that position as the error.
pub fn solve_sudoku(field: Field) -> (r: Result<Field, SolveError>)
    requires
        grid_wf(field@),
    ensures
        ({
            let s = solve_from(field@, 82);
            match r {
                Ok(f) => s == Ok::<GridV, (int, int)>(f@) && grid_wf(f@),
                Err(e) => e matches SolveError::UnsolvablePosition { x, y } && s == Err::<
                    GridV,
                    (int, int),
                >((x as int, y as int)),
            }
        }),
{
    let ghost g0 = field@;
    let mut field = field;
    let mut new_field = Field::empty();
    #[verifier::loop_isolation(false)]
    loop
        invariant
            grid_wf(field@),
            solve_from(field@, 82) == solve_from(g0, 82),
        decreases 82 - known_count(field@),
    {
        let ghost g_before = field@;
        proof {
            lemma_known_count_bounds(g_before);
        }
        let progress = match solve_step(&field, &mut new_field) {
            Ok(p) => p,
            Err(e) => {
                proof {
                    assert(first_bad_pos(g_before) matches Some(pos) && solve_from(g_before, 82)
                        == Err::<GridV, (int, int)>(pos));
                }
                return Err(e);
            },
        };
        if progress <= 0 {
            proof {
                lemma_progress_bounds(g_before, SIZE as int);
                assert(sweep_progress(g_before) == 0);
                assert(solve_from(g_before, 82) == Ok::<GridV, (int, int)>(sweep_grid(g_before)));
            }
            return Ok(new_field);
        }
        core::mem::swap(&mut field, &mut new_field);
        proof {
            assert(field@ == sweep_grid(g_before));
            lemma_sweep_known_count(g_before);
            lemma_known_count_bounds(field@);
            assert(sweep_progress(g_before) >= 1);
            assert(known_count(field@) >= known_count(g_before) + 1);
            lemma_solve_from_fuel(field@, 81nat, 82nat);
            assert(solve_from(g_before, 82) == solve_from(field@, 81));
        }
    }
}

} // verus!
