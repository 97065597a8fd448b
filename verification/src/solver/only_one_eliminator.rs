//! The hidden-single eliminator: a candidate value that no other cell of a
//! row, column or block could still take is forced into this cell.

use vstd::prelude::*;

use crate::field::{BLOCK_SIZE, Cell, CellV, Field, GridV, SIZE, grid_wf, vals_of};
use crate::solver::possibilities_finder::{block_base, cell_at};

verus! {

/// The cell could still take value `v`: it is open with `v` among its
/// candidates, or not yet classified (then conservatively assumed capable,
/// since its candidates have not been computed yet). A known cell never
/// blocks.
pub open spec fn could_take(c: CellV, v: int) -> bool {
    match c {
        CellV::Known(_) => false,
        CellV::Empty => true,
        CellV::Possible(s) => s.contains(v),
    }
}

/// No cell of row `y` other than (x, y) could still take `v`.
pub open spec fn no_other_in_row(g: GridV, x: int, y: int, v: int) -> bool {
    forall|i: int| 0 <= i < SIZE && i != x ==> !could_take(#[trigger] g[y][i], v)
}

/// No cell of column `x` other than (x, y) could still take `v`.
pub open spec fn no_other_in_col(g: GridV, x: int, y: int, v: int) -> bool {
    forall|j: int| 0 <= j < SIZE && j != y ==> !could_take(#[trigger] g[j][x], v)
}

/// No cell of the block around (x, y) other than (x, y) itself could still
/// take `v`.
pub open spec fn no_other_in_block(g: GridV, x: int, y: int, v: int) -> bool {
    forall|i: int, j: int|
        block_base(x) <= i < block_base(x) + BLOCK_SIZE
            && block_base(y) <= j < block_base(y) + BLOCK_SIZE && !(i == x && j == y)
            ==> !could_take(#[trigger] g[j][i], v)
}

/// Value `v` is forced into (x, y): in at least one of row, column and
/// block, no other cell could still take it.
pub open spec fn forced_at(g: GridV, x: int, y: int, v: int) -> bool {
    no_other_in_row(g, x, y, v) || no_other_in_col(g, x, y, v) || no_other_in_block(g, x, y, v)
}

/// Whether this cell could still take the number; de-duplicates the
/// `match cell {}` of the group scans.
pub fn other_cell_contains_num(cell: &Cell, num: i32) -> (r: bool)
    ensures
        r == could_take(cell@, num as int),
{
    match cell {
        Cell::Possible(vec) => {
            let ghost s = vals_of(vec@);
            let mut k: usize = 0;
            while k < vec.len()
                invariant
                    k <= vec.len(),
                    s == vals_of(vec@),
                    cell@ == CellV::Possible(s),
                    forall|kk: int| 0 <= kk < k ==> s[kk] != num as int,
                decreases vec.len() - k,
            {
                if vec[k] == num {
                    proof {
                        assert(s[k as int] == num as int);
                        assert(s.contains(num as int));
                    }
                    return true;
                }
                k = k + 1;
            }
            proof {
                if s.contains(num as int) {
                    let kk = choose|kk: int| 0 <= kk < s.len() && s[kk] == num as int;
                    assert(s[kk] != num as int);
                }
            }
            false
        },
        Cell::Empty => {
            // Happens in the first sweep: candidates have not been computed
            // for this cell yet, so be conservative.
            true
        },
        Cell::Known(_) => {
            // Only found candidates are tested, and a candidate is never
            // already known in its own row, column or block.
            false
        },
    }
}

/// Is this the only cell in a row/column/block where the number is allowed?
pub fn unique_in_line_column_or_block(num: i32, field: &Field, x: usize, y: usize) -> (r: bool)
    requires
        grid_wf(field@),
        x < SIZE,
        y < SIZE,
    ensures
        r == forced_at(field@, x as int, y as int, num as int),
{
    let ghost g = field@;
    // check line
    let mut unique_in_line = true;
    let mut i: usize = 0;
    while i < SIZE
        invariant
            grid_wf(field@),
            g == field@,
            x < SIZE,
            y < SIZE,
            i <= SIZE,
            unique_in_line == (forall|ii: int|
                0 <= ii < i && ii != x ==> !could_take(#[trigger] g[y as int][ii], num as int)),
        decreases SIZE - i,
    {
        if i != x && other_cell_contains_num(cell_at(field, i, y), num) {
            unique_in_line = false;
        }
        i = i + 1;
    }
    // check column
    let mut unique_in_column = true;
    let mut j: usize = 0;
    while j < SIZE
        invariant
            grid_wf(field@),
            g == field@,
            x < SIZE,
            y < SIZE,
            j <= SIZE,
            unique_in_column == (forall|jj: int|
                0 <= jj < j && jj != y ==> !could_take(#[trigger] g[jj][x as int], num as int)),
        decreases SIZE - j,
    {
        if j != y && other_cell_contains_num(cell_at(field, x, j), num) {
            unique_in_column = false;
        }
        j = j + 1;
    }
    // check the 3*3 block
    let mut unique_in_block = true;
    let block_x = x - (x % BLOCK_SIZE);
    let block_y = y - (y % BLOCK_SIZE);
    let mut i: usize = block_x;
    while i < block_x + BLOCK_SIZE
        invariant
            grid_wf(field@),
            g == field@,
            x < SIZE,
            y < SIZE,
            block_x == block_base(x as int),
            block_y == block_base(y as int),
            block_x <= i <= block_x + BLOCK_SIZE,
            unique_in_block == (forall|ii: int, jj: int|
                block_x <= ii < i && block_y <= jj < block_y + BLOCK_SIZE && !(ii == x && jj == y)
                    ==> !could_take(#[trigger] g[jj][ii], num as int)),
        decreases block_x + BLOCK_SIZE - i,
    {
        let mut j: usize = block_y;
        while j < block_y + BLOCK_SIZE
            invariant
                grid_wf(field@),
                g == field@,
                x < SIZE,
                y < SIZE,
                block_x == block_base(x as int),
                block_y == block_base(y as int),
                block_x <= i < block_x + BLOCK_SIZE,
                block_y <= j <= block_y + BLOCK_SIZE,
                unique_in_block == ((forall|ii: int, jj: int|
                    block_x <= ii < i && block_y <= jj < block_y + BLOCK_SIZE && !(ii == x && jj
                        == y) ==> !could_take(#[trigger] g[jj][ii], num as int)) && (forall|jj: int|
                    block_y <= jj < j && !(i == x && jj == y) ==> !could_take(
                        #[trigger] g[jj][i as int],
                        num as int,
                    ))),
            decreases block_y + BLOCK_SIZE - j,
        {
            if !(i == x && j == y) && other_cell_contains_num(cell_at(field, i, j), num) {
                unique_in_block = false;
            }
            j = j + 1;
        }
        i = i + 1;
    }
    // If the number is unique in one of line, column or block,
    // then that number must be in this position.
    unique_in_line || unique_in_column || unique_in_block
}

} // verus!
