//! The candidate finder: for one cell, the set of values consistent with
//! every value already known in its row, its column and its block.

use vstd::prelude::*;

use crate::field::{BLOCK_SIZE, Cell, CellV, Field, GridV, MAX_NUM, SIZE, grid_wf, row_view, vals_of};
use crate::solver::SolveError;

verus! {

/// (x, y) is a position of the grid.
pub open spec fn in_grid(x: int, y: int) -> bool {
    0 <= x < SIZE && 0 <= y < SIZE
}

/// The first row or column of the block that position `i` falls in.
pub open spec fn block_base(i: int) -> int {
    i - (i % (BLOCK_SIZE as int))
}

/// The cell at (x, y) is known to hold exactly `v`.
pub open spec fn known_at(g: GridV, x: int, y: int, v: int) -> bool {
    g[y][x] matches CellV::Known(w) && w == v
}

/// Some cell of row `y` is known to hold `v`.
pub open spec fn row_blocks(g: GridV, y: int, v: int) -> bool {
    exists|i: int| 0 <= i < SIZE && known_at(g, i, y, v)
}

/// Some cell of column `x` is known to hold `v`.
pub open spec fn col_blocks(g: GridV, x: int, v: int) -> bool {
    exists|j: int| 0 <= j < SIZE && known_at(g, x, j, v)
}

/// Some cell of the block around (x, y) is known to hold `v`.
pub open spec fn block_blocks(g: GridV, x: int, y: int, v: int) -> bool {
    exists|i: int, j: int|
        block_base(x) <= i < block_base(x) + BLOCK_SIZE
            && block_base(y) <= j < block_base(y) + BLOCK_SIZE && known_at(g, i, j, v)
}

/// Value `v` may still be placed at (x, y): no cell of the row, the column
/// or the block already holds it.
pub open spec fn can_place(g: GridV, x: int, y: int, v: int) -> bool {
    !row_blocks(g, y, v) && !col_blocks(g, x, v) && !block_blocks(g, x, y, v)
}

/// The values of 1..=n that may still be placed at (x, y), ascending.
pub open spec fn candidates_upto(g: GridV, x: int, y: int, n: int) -> Seq<int>
    decreases n,
{
    if n < 1 {
        Seq::empty()
    } else if can_place(g, x, y, n) {
        candidates_upto(g, x, y, n - 1).push(n)
    } else {
        candidates_upto(g, x, y, n - 1)
    }
}

/// The values of 1..=MAX_NUM that may still be placed at (x, y), ascending.
pub open spec fn candidates(g: GridV, x: int, y: int) -> Seq<int> {
    candidates_upto(g, x, y, MAX_NUM as int)
}

/// A value is a candidate exactly when it lies in 1..=n and nothing in the
/// row, the column or the block already holds it.
pub proof fn lemma_candidates_upto_contains(g: GridV, x: int, y: int, n: int, v: int)
    ensures
        candidates_upto(g, x, y, n).contains(v) <==> 1 <= v <= n && can_place(g, x, y, v),
    decreases n,
{
    if n >= 1 {
        lemma_candidates_upto_contains(g, x, y, n - 1, v);
        let prefix = candidates_upto(g, x, y, n - 1);
        if can_place(g, x, y, n) {
            let cur = prefix.push(n);
            assert(cur[prefix.len() as int] == n);
            if cur.contains(v) && v != n {
                let i = choose|i: int| 0 <= i < cur.len() && cur[i] == v;
                assert(prefix[i] == v);
                assert(prefix.contains(v));
            }
            if prefix.contains(v) {
                let i = choose|i: int| 0 <= i < prefix.len() && prefix[i] == v;
                assert(cur[i] == v);
                assert(cur.contains(v));
            }
        }
    }
}

/// As `lemma_candidates_upto_contains`, for the full candidate list.
pub proof fn lemma_candidates_contains(g: GridV, x: int, y: int, v: int)
    ensures
        candidates(g, x, y).contains(v) <==> 1 <= v <= MAX_NUM && can_place(g, x, y, v),
{
    lemma_candidates_upto_contains(g, x, y, MAX_NUM as int, v);
}

/// A borrow of the cell at column `x`, line `y`.
pub(crate) fn cell_at<'a>(field: &'a Field, x: usize, y: usize) -> (c: &'a Cell)
    requires
        grid_wf(field@),
        x < SIZE,
        y < SIZE,
    ensures
        c@ == field@[y as int][x as int],
{
    proof {
        assert(field@.len() == field.cells@.len());
        assert(field@[y as int] == row_view(field.cells@[y as int]@));
        assert(field@[y as int].len() == field.cells@[y as int]@.len());
    }
    &field.cells[y][x]
}

/// For a single number check if that same number is already somewhere in the
/// row, column or block of the given cell position.
/// Returns true if num is possible.
pub fn check(num: i32, field: &Field, x: usize, y: usize) -> (r: bool)
    requires
        grid_wf(field@),
        x < SIZE,
        y < SIZE,
    ensures
        r == can_place(field@, x as int, y as int, num as int),
{
    let ghost g = field@;
    // check line
    let mut i: usize = 0;
    while i < SIZE
        invariant
            grid_wf(field@),
            g == field@,
            x < SIZE,
            y < SIZE,
            i <= SIZE,
            forall|ii: int| 0 <= ii < i ==> !known_at(g, ii, y as int, num as int),
        decreases SIZE - i,
    {
        if let Cell::Known(k) = cell_at(field, i, y) {
            if *k == num {
                proof {
                    assert(known_at(g, i as int, y as int, num as int));
                }
                return false;
            }
        }
        i = i + 1;
    }
    // check column
    let mut j: usize = 0;
    while j < SIZE
        invariant
            grid_wf(field@),
            g == field@,
            x < SIZE,
            y < SIZE,
            j <= SIZE,
            forall|jj: int| 0 <= jj < j ==> !known_at(g, x as int, jj, num as int),
        decreases SIZE - j,
    {
        if let Cell::Known(k) = cell_at(field, x, j) {
            if *k == num {
                proof {
                    assert(known_at(g, x as int, j as int, num as int));
                }
                return false;
            }
        }
        j = j + 1;
    }
    // check the 3*3 block
    let block_x = x - (x % BLOCK_SIZE);
    let block_y = y - (y % BLOCK_SIZE);
    let mut i: usize = block_x;
    while i < block_x + BLOCK_SIZE
        invariant
            grid_wf(field@),
            g == field@,
            x < SIZE,
            y < SIZE,
            block_x == block_base(x as int),
            block_y == block_base(y as int),
            block_x <= i <= block_x + BLOCK_SIZE,
            forall|ii: int, jj: int|
                block_x <= ii < i && block_y <= jj < block_y + BLOCK_SIZE
                    ==> !known_at(g, ii, jj, num as int),
        decreases block_x + BLOCK_SIZE - i,
    {
        let mut j: usize = block_y;
        while j < block_y + BLOCK_SIZE
            invariant
                grid_wf(field@),
                g == field@,
                x < SIZE,
                y < SIZE,
                block_x == block_base(x as int),
                block_y == block_base(y as int),
                block_x <= i < block_x + BLOCK_SIZE,
                block_y <= j <= block_y + BLOCK_SIZE,
                forall|ii: int, jj: int|
                    block_x <= ii < i && block_y <= jj < block_y + BLOCK_SIZE
                        ==> !known_at(g, ii, jj, num as int),
                forall|jj: int| block_y <= jj < j ==> !known_at(g, i as int, jj, num as int),
            decreases block_y + BLOCK_SIZE - j,
        {
            if let Cell::Known(k) = cell_at(field, i, j) {
                if *k == num {
                    proof {
                        assert(known_at(g, i as int, j as int, num as int));
                    }
                    return false;
                }
            }
            j = j + 1;
        }
        i = i + 1;
    }
    // no check fails
    proof {
        if row_blocks(g, y as int, num as int) {
            let ii = choose|ii: int| 0 <= ii < SIZE && known_at(g, ii, y as int, num as int);
            assert(!known_at(g, ii, y as int, num as int));
        }
        if col_blocks(g, x as int, num as int) {
            let jj = choose|jj: int| 0 <= jj < SIZE && known_at(g, x as int, jj, num as int);
            assert(!known_at(g, x as int, jj, num as int));
        }
        if block_blocks(g, x as int, y as int, num as int) {
            let (ii, jj) = choose|ii: int, jj: int|
                block_base(x as int) <= ii < block_base(x as int) + BLOCK_SIZE
                    && block_base(y as int) <= jj < block_base(y as int) + BLOCK_SIZE
                    && known_at(g, ii, jj, num as int);
            assert(!known_at(g, ii, jj, num as int));
        }
    }
    true
}

/// Find all numbers that fit at the given position, according to the sudoku
/// rules. Returns 1 as second component if a lone candidate turned the cell
/// into a known one, 0 otherwise. Borrowing the field immutably and
/// returning an owned result enables multi-threading.
pub fn find_possibilities(field: &Field, x: usize, y: usize) -> (r: Result<
    (Cell, i32),
    SolveError,
>)
    requires
        grid_wf(field@),
        x < SIZE,
        y < SIZE,
    ensures
        ({
            let g = field@;
            let xi = x as int;
            let yi = y as int;
            let cs = candidates(g, xi, yi);
            match r {
                Ok(cp) => {
                    &&& (g[yi][xi] is Known ==> cp.0@ == g[yi][xi] && cp.1 == 0)
                    &&& (g[yi][xi] !is Known ==> {
                        &&& cs.len() >= 1
                        &&& cs.len() == 1 ==> cp.0@ == CellV::Known(cs[0]) && cp.1 == 1
                        &&& cs.len() > 1 ==> cp.0@ == CellV::Possible(cs) && cp.1 == 0
                    })
                },
                Err(e) => {
                    &&& g[yi][xi] !is Known
                    &&& cs.len() == 0
                    &&& e == SolveError::UnsolvablePosition { x, y }
                },
            }
        }),
{
    let cell = cell_at(field, x, y);
    // Nothing must be computed for given and solved cells.
    if let Cell::Known(v) = cell {
        return Ok((Cell::Known(*v), 0));
    }
    let mut possible: Vec<i32> = Vec::new();
    let mut num: i32 = 1;
    while num <= MAX_NUM as i32
        invariant
            grid_wf(field@),
            x < SIZE,
            y < SIZE,
            1 <= num <= MAX_NUM + 1,
            vals_of(possible@) == candidates_upto(field@, x as int, y as int, num - 1),
        decreases MAX_NUM + 1 - num,
    {
        if check(num, field, x, y) {
            let ghost before = possible@;
            possible.push(num);
            proof {
                assert(vals_of(possible@) =~= vals_of(before).push(num as int));
            }
        }
        num = num + 1;
    }
    proof {
        assert(vals_of(possible@) == candidates(field@, x as int, y as int));
    }
    if possible.len() == 0 {
        Err(SolveError::UnsolvablePosition { x, y })
    } else if possible.len() == 1 {
        Ok((Cell::Known(possible[0]), 1))
    } else {
        Ok((Cell::Possible(possible), 0))
    }
}

} // verus!
