//! Properties of the solving core, stated and proved once and for all:
//! determinism, conservativeness of known cells, monotonic candidate
//! shrinkage, the bound on total progress, idempotence at a fixpoint, and
//! the no-conflict invariant on solvable puzzles.

use vstd::prelude::*;

use crate::field::{CellV, GridV, MAX_NUM, SIZE, grid_wf};
use crate::solver::only_one_eliminator::{
    could_take, forced_at, no_other_in_block, no_other_in_col, no_other_in_row,
};
use crate::solver::possibilities_finder::{
    block_base, block_blocks, can_place, candidates, col_blocks, in_grid, known_at,
    lemma_candidates_contains, row_blocks,
};
use crate::solver::sudoku_solver::{
    cell_ok, cell_progress, first_bad_from_row, first_bad_in_row_from, first_bad_pos,
    first_forced, known_count, lemma_first_bad_in_row_skip, lemma_first_bad_row_skip,
    lemma_known_count_bounds, lemma_progress_bounds, lemma_row_progress_bounds,
    lemma_sweep_known_count, progress_upto, row_progress_upto, solve_from, sweep_cell,
    sweep_grid, sweep_progress,
};

verus! {

/// Every known cell of `g1` is known with the same value in `g2`.
pub open spec fn knowns_preserved(g1: GridV, g2: GridV) -> bool {
    forall|x: int, y: int|
        in_grid(x, y) && (#[trigger] g1[y][x]) is Known ==> g2[y][x] == g1[y][x]
}

/// Determinism: the sweep and the whole solve run are functions of the
/// input grid alone, so two runs on equal grids agree on the resulting
/// grid and on every progress count.
pub proof fn lemma_solve_deterministic(g1: GridV, g2: GridV, fuel: nat)
    requires
        g1 == g2,
    ensures
        solve_from(g1, fuel) == solve_from(g2, fuel),
        sweep_grid(g1) == sweep_grid(g2),
        sweep_progress(g1) == sweep_progress(g2),
{
}

/// Conservativeness: a known cell's value never changes across a sweep.
pub proof fn lemma_sweep_conserves_knowns(g: GridV)
    ensures
        knowns_preserved(g, sweep_grid(g)),
{
    assert forall|x: int, y: int|
        in_grid(x, y) && (#[trigger] g[y][x]) is Known implies sweep_grid(g)[y][x] == g[y][x] by {
        assert(sweep_grid(g)[y][x] == sweep_cell(g, x, y));
    }
}

proof fn lemma_knowns_preserved_trans(g1: GridV, g2: GridV, g3: GridV)
    requires
        knowns_preserved(g1, g2),
        knowns_preserved(g2, g3),
    ensures
        knowns_preserved(g1, g3),
{
    assert forall|x: int, y: int|
        in_grid(x, y) && (#[trigger] g1[y][x]) is Known implies g3[y][x] == g1[y][x] by {
        assert(g2[y][x] == g1[y][x]);
    }
}

/// Conservativeness across the whole solve run: every known cell of the
/// input keeps its value in the returned grid.
pub proof fn lemma_solve_conserves_knowns(g: GridV, fuel: nat)
    ensures
        solve_from(g, fuel) matches Ok(r) ==> knowns_preserved(g, r),
    decreases fuel,
{
    if first_bad_pos(g) is None {
        lemma_sweep_conserves_knowns(g);
        if sweep_progress(g) != 0 && fuel != 0 {
            lemma_solve_conserves_knowns(sweep_grid(g), (fuel - 1) as nat);
            if solve_from(g, fuel) is Ok {
                lemma_knowns_preserved_trans(
                    g,
                    sweep_grid(g),
                    solve_from(g, fuel)->Ok_0,
                );
            }
        }
    }
}

/// A value that is still placeable once more cells are known was
/// placeable before.
proof fn lemma_can_place_antitone(g1: GridV, g2: GridV, x: int, y: int, v: int)
    requires
        knowns_preserved(g1, g2),
        in_grid(x, y),
    ensures
        can_place(g2, x, y, v) ==> can_place(g1, x, y, v),
{
    if can_place(g2, x, y, v) {
        if row_blocks(g1, y, v) {
            let i = choose|i: int| 0 <= i < SIZE && known_at(g1, i, y, v);
            assert(g2[y][i] == g1[y][i]);
            assert(known_at(g2, i, y, v));
        }
        if col_blocks(g1, x, v) {
            let j = choose|j: int| 0 <= j < SIZE && known_at(g1, x, j, v);
            assert(g2[j][x] == g1[j][x]);
            assert(known_at(g2, x, j, v));
        }
        if block_blocks(g1, x, y, v) {
            let (i, j) = choose|i: int, j: int|
                block_base(x) <= i < block_base(x) + 3 && block_base(y) <= j < block_base(y) + 3
                    && known_at(g1, i, j, v);
            assert(in_grid(i, j));
            assert(g2[j][i] == g1[j][i]);
            assert(known_at(g2, i, j, v));
        }
    }
}

/// Candidates only ever shrink as knowledge grows: a value that `g2`
/// still lists as a candidate at a position was a candidate in `g1`.
pub proof fn lemma_candidates_shrink(g1: GridV, g2: GridV, x: int, y: int, v: int)
    requires
        knowns_preserved(g1, g2),
        in_grid(x, y),
    ensures
        candidates(g2, x, y).contains(v) ==> candidates(g1, x, y).contains(v),
{
    lemma_candidates_contains(g1, x, y, v);
    lemma_candidates_contains(g2, x, y, v);
    lemma_can_place_antitone(g1, g2, x, y, v);
}

/// Monotonic candidate shrinkage: a cell still open after the later of
/// two chained sweeps lists a subset of the candidates it listed after
/// the earlier sweep; a candidate once eliminated never reappears.
pub proof fn lemma_sweep_candidates_shrink(g: GridV, x: int, y: int, v: int)
    requires
        in_grid(x, y),
        sweep_grid(g)[y][x] is Possible,
        sweep_grid(sweep_grid(g))[y][x] is Possible,
    ensures
        sweep_grid(sweep_grid(g))[y][x]->Possible_0.contains(v) ==> sweep_grid(
            g,
        )[y][x]->Possible_0.contains(v),
{
    let g1 = sweep_grid(g);
    assert(g1[y][x] == sweep_cell(g, x, y));
    assert(sweep_grid(g1)[y][x] == sweep_cell(g1, x, y));
    assert(g1[y][x]->Possible_0 == candidates(g, x, y));
    assert(sweep_grid(g1)[y][x]->Possible_0 == candidates(g1, x, y));
    lemma_sweep_conserves_knowns(g);
    lemma_candidates_shrink(g, g1, x, y, v);
}

/// The cells resolved sweep by sweep over a whole solve run, summed.
pub open spec fn total_progress(g: GridV, fuel: nat) -> int
    decreases fuel,
{
    match first_bad_pos(g) {
        Some(_) => 0,
        None => {
            if sweep_progress(g) == 0 || fuel == 0 {
                sweep_progress(g)
            } else {
                sweep_progress(g) + total_progress(sweep_grid(g), (fuel - 1) as nat)
            }
        },
    }
}

/// Termination bound: however long the loop runs, the total number of
/// cells resolved across all its sweeps never exceeds SIZE*SIZE; each
/// sweep can only resolve cells that were not known before.
pub proof fn lemma_total_progress_bound(g: GridV, fuel: nat)
    ensures
        0 <= total_progress(g, fuel),
        total_progress(g, fuel) + known_count(g) <= (SIZE * SIZE) as int,
    decreases fuel,
{
    lemma_known_count_bounds(g);
    if first_bad_pos(g) is None {
        lemma_progress_bounds(g, SIZE as int);
        lemma_sweep_known_count(g);
        lemma_known_count_bounds(sweep_grid(g));
        if sweep_progress(g) != 0 && fuel != 0 {
            lemma_total_progress_bound(sweep_grid(g), (fuel - 1) as nat);
        }
    }
}

proof fn lemma_row_progress_zero(g: GridV, y: int, n: int)
    requires
        0 <= n,
        row_progress_upto(g, y, n) == 0,
    ensures
        forall|x: int| 0 <= x < n ==> cell_progress(g, x, y) == 0,
    decreases n,
{
    if n > 0 {
        lemma_row_progress_bounds(g, y, n - 1);
        lemma_row_progress_zero(g, y, n - 1);
    }
}

proof fn lemma_progress_zero(g: GridV, m: int)
    requires
        0 <= m,
        progress_upto(g, m) == 0,
    ensures
        forall|x: int, y: int| 0 <= x < SIZE && 0 <= y < m ==> cell_progress(g, x, y) == 0,
    decreases m,
{
    if m > 0 {
        lemma_progress_bounds(g, m - 1);
        lemma_row_progress_bounds(g, m - 1, SIZE as int);
        lemma_row_progress_zero(g, m - 1, SIZE as int);
        lemma_progress_zero(g, m - 1);
    }
}

proof fn lemma_first_bad_in_row_none_ok(g: GridV, y: int, x: int)
    requires
        0 <= x <= SIZE,
        first_bad_in_row_from(g, y, x) is None,
    ensures
        forall|xx: int| x <= xx < SIZE ==> cell_ok(g, xx, y),
    decreases SIZE - x,
{
    if x < SIZE {
        lemma_first_bad_in_row_none_ok(g, y, x + 1);
    }
}

proof fn lemma_first_bad_from_row_none_ok(g: GridV, y: int)
    requires
        0 <= y <= SIZE,
        first_bad_from_row(g, y) is None,
    ensures
        forall|xx: int, yy: int| 0 <= xx < SIZE && y <= yy < SIZE ==> cell_ok(g, xx, yy),
    decreases SIZE - y,
{
    if y < SIZE {
        lemma_first_bad_in_row_none_ok(g, y, 0);
        lemma_first_bad_from_row_none_ok(g, y + 1);
    }
}

/// Where no cell failed, every cell is known or keeps a candidate.
pub proof fn lemma_first_bad_none_all_ok(g: GridV)
    requires
        first_bad_pos(g) is None,
    ensures
        forall|x: int, y: int| in_grid(x, y) ==> cell_ok(g, x, y),
{
    lemma_first_bad_from_row_none_ok(g, 0);
}

/// A grid is fresh when every open cell carries exactly the candidates
/// that the grid itself allows at its position -- as every grid written
/// by a sweep does with respect to the grid the sweep read.
pub open spec fn fresh(g: GridV) -> bool {
    &&& grid_wf(g)
    &&& forall|x: int, y: int|
        in_grid(x, y) && !((#[trigger] g[y][x]) is Known) ==> g[y][x] == CellV::Possible(
            candidates(g, x, y),
        )
}

/// Idempotence at the fixpoint: a sweep of a fresh grid that resolves
/// nothing hands the grid back unchanged, so re-running the sweep on its
/// own output again resolves nothing. Freshness is needed: on a grid with
/// unclassified cells or stale candidate lists, the zero-progress sweep
/// refreshes the lists and the next sweep may detect a hidden single that
/// conservative scanning had passed over.
pub proof fn lemma_fixpoint_idempotent(g: GridV)
    requires
        fresh(g),
        first_bad_pos(g) is None,
        sweep_progress(g) == 0,
    ensures
        sweep_grid(g) == g,
        sweep_progress(sweep_grid(g)) == 0,
        first_bad_pos(sweep_grid(g)) is None,
{
    lemma_progress_zero(g, SIZE as int);
    lemma_first_bad_none_all_ok(g);
    assert forall|x: int, y: int| in_grid(x, y) implies sweep_cell(g, x, y) == g[y][x] by {
        if !(g[y][x] is Known) {
            let cs = candidates(g, x, y);
            assert(cell_progress(g, x, y) == 0);
            assert(!(sweep_cell(g, x, y) is Known));
            assert(cs.len() >= 1);
            assert(cs.len() != 1);
            assert(first_forced(g, x, y, cs) is None);
        }
    }
    assert(sweep_grid(g) =~~= g);
}

/// The two positions share a row, a column or a block.
pub open spec fn same_group(x1: int, y1: int, x2: int, y2: int) -> bool {
    ||| y1 == y2
    ||| x1 == x2
    ||| (block_base(x1) == block_base(x2) && block_base(y1) == block_base(y2))
}

/// Row `y` of the value grid holds `v` somewhere.
pub open spec fn sol_row_has(sol: Seq<Seq<int>>, y: int, v: int) -> bool {
    exists|x: int| 0 <= x < SIZE && #[trigger] sol[y][x] == v
}

/// Column `x` of the value grid holds `v` somewhere.
pub open spec fn sol_col_has(sol: Seq<Seq<int>>, x: int, v: int) -> bool {
    exists|y: int| 0 <= y < SIZE && #[trigger] sol[y][x] == v
}

/// The block around (x, y) of the value grid holds `v` somewhere.
pub open spec fn sol_block_has(sol: Seq<Seq<int>>, x: int, y: int, v: int) -> bool {
    exists|i: int, j: int|
        block_base(x) <= i < block_base(x) + 3 && block_base(y) <= j < block_base(y) + 3
            && #[trigger] sol[j][i] == v
}

/// `sol` is a complete valid solution: a SIZE by SIZE grid of values of
/// 1..=MAX_NUM in which no row, column or block repeats a value, and
/// every row, column and block holds every value.
pub open spec fn is_solution(sol: Seq<Seq<int>>) -> bool {
    &&& sol.len() == SIZE
    &&& forall|y: int| 0 <= y < SIZE ==> (#[trigger] sol[y]).len() == SIZE
    &&& forall|x: int, y: int| in_grid(x, y) ==> 1 <= #[trigger] sol[y][x] <= MAX_NUM
    &&& forall|x1: int, y1: int, x2: int, y2: int|
        in_grid(x1, y1) && in_grid(x2, y2) && same_group(x1, y1, x2, y2) && !(x1 == x2 && y1
            == y2) ==> #[trigger] sol[y1][x1] != #[trigger] sol[y2][x2]
    &&& forall|y: int, v: int| 0 <= y < SIZE && 1 <= v <= MAX_NUM ==> #[trigger] sol_row_has(
        sol,
        y,
        v,
    )
    &&& forall|x: int, v: int| 0 <= x < SIZE && 1 <= v <= MAX_NUM ==> #[trigger] sol_col_has(
        sol,
        x,
        v,
    )
    &&& forall|x: int, y: int, v: int|
        in_grid(x, y) && 1 <= v <= MAX_NUM ==> #[trigger] sol_block_has(sol, x, y, v)
}

/// The cell does not contradict the value `v` that the solution puts at
/// its position: a known cell holds `v`, an open cell still lists it.
pub open spec fn cell_consistent(c: CellV, v: int) -> bool {
    match c {
        CellV::Known(w) => w == v,
        CellV::Empty => true,
        CellV::Possible(s) => s.contains(v),
    }
}

/// The grid agrees with the solution at every position.
pub open spec fn consistent(g: GridV, sol: Seq<Seq<int>>) -> bool {
    forall|x: int, y: int| in_grid(x, y) ==> cell_consistent(#[trigger] g[y][x], sol[y][x])
}

/// No two known cells of one row, column or block share a value.
pub open spec fn no_conflicts(g: GridV) -> bool {
    forall|x1: int, y1: int, x2: int, y2: int|
        in_grid(x1, y1) && in_grid(x2, y2) && same_group(x1, y1, x2, y2) && !(x1 == x2 && y1
            == y2) && (#[trigger] g[y1][x1]) is Known && (#[trigger] g[y2][x2]) is Known
            ==> g[y1][x1] != g[y2][x2]
}

/// A grid that agrees with a complete solution cannot hold a conflict:
/// its known values are values of the solution, which never repeats one
/// within a group.
pub proof fn lemma_consistent_no_conflicts(g: GridV, sol: Seq<Seq<int>>)
    requires
        is_solution(sol),
        consistent(g, sol),
    ensures
        no_conflicts(g),
{
    assert forall|x1: int, y1: int, x2: int, y2: int|
        in_grid(x1, y1) && in_grid(x2, y2) && same_group(x1, y1, x2, y2) && !(x1 == x2 && y1
            == y2) && (#[trigger] g[y1][x1]) is Known && (#[trigger] g[y2][x2]) is Known implies g[y1][x1]
        != g[y2][x2] by {
        assert(cell_consistent(g[y1][x1], sol[y1][x1]));
        assert(cell_consistent(g[y2][x2], sol[y2][x2]));
        assert(sol[y1][x1] != sol[y2][x2]);
    }
}

/// At an open position, the solution's value is never eliminated: no cell
/// of the row, the column or the block is known to hold it already.
proof fn lemma_solution_value_placeable(g: GridV, sol: Seq<Seq<int>>, x: int, y: int)
    requires
        grid_wf(g),
        is_solution(sol),
        consistent(g, sol),
        in_grid(x, y),
        !(g[y][x] is Known),
    ensures
        can_place(g, x, y, sol[y][x]),
        candidates(g, x, y).contains(sol[y][x]),
{
    let v = sol[y][x];
    if row_blocks(g, y, v) {
        let i = choose|i: int| 0 <= i < SIZE && known_at(g, i, y, v);
        assert(cell_consistent(g[y][i], sol[y][i]));
        assert(sol[y][i] == v);
        assert(i != x);
        assert(same_group(i, y, x, y));
        assert(false);
    }
    if col_blocks(g, x, v) {
        let j = choose|j: int| 0 <= j < SIZE && known_at(g, x, j, v);
        assert(cell_consistent(g[j][x], sol[j][x]));
        assert(sol[j][x] == v);
        assert(j != y);
        assert(same_group(x, j, x, y));
        assert(false);
    }
    if block_blocks(g, x, y, v) {
        let (i, j) = choose|i: int, j: int|
            block_base(x) <= i < block_base(x) + 3 && block_base(y) <= j < block_base(y) + 3
                && known_at(g, i, j, v);
        assert(in_grid(i, j));
        assert(cell_consistent(g[j][i], sol[j][i]));
        assert(sol[j][i] == v);
        assert(!(i == x && j == y));
        assert(block_base(i) == block_base(x) && block_base(j) == block_base(y));
        assert(same_group(i, j, x, y));
        assert(false);
    }
    lemma_candidates_contains(g, x, y, v);
}

/// Hidden singles are sound: where a candidate is forced into an open
/// cell, it is the solution's value there -- the solution must place the
/// value somewhere in the isolating group, and every other cell of that
/// group either could still take it or already holds it.
proof fn lemma_forced_matches_solution(g: GridV, sol: Seq<Seq<int>>, x: int, y: int, v: int)
    requires
        grid_wf(g),
        is_solution(sol),
        consistent(g, sol),
        in_grid(x, y),
        !(g[y][x] is Known),
        1 <= v <= MAX_NUM,
        can_place(g, x, y, v),
        forced_at(g, x, y, v),
    ensures
        v == sol[y][x],
{
    if v != sol[y][x] {
        if no_other_in_row(g, x, y, v) {
            assert(sol_row_has(sol, y, v));
            let i = choose|i: int| 0 <= i < SIZE && sol[y][i] == v;
            assert(i != x);
            assert(cell_consistent(g[y][i], sol[y][i]));
            match g[y][i] {
                CellV::Known(w) => {
                    assert(known_at(g, i, y, v));
                    assert(row_blocks(g, y, v));
                },
                CellV::Empty => {
                    assert(could_take(g[y][i], v));
                },
                CellV::Possible(s) => {
                    assert(could_take(g[y][i], v));
                },
            }
            assert(false);
        } else if no_other_in_col(g, x, y, v) {
            assert(sol_col_has(sol, x, v));
            let j = choose|j: int| 0 <= j < SIZE && sol[j][x] == v;
            assert(j != y);
            assert(cell_consistent(g[j][x], sol[j][x]));
            match g[j][x] {
                CellV::Known(w) => {
                    assert(known_at(g, x, j, v));
                    assert(col_blocks(g, x, v));
                },
                CellV::Empty => {
                    assert(could_take(g[j][x], v));
                },
                CellV::Possible(s) => {
                    assert(could_take(g[j][x], v));
                },
            }
            assert(false);
        } else {
            assert(no_other_in_block(g, x, y, v));
            assert(sol_block_has(sol, x, y, v));
            let (i, j) = choose|i: int, j: int|
                block_base(x) <= i < block_base(x) + 3 && block_base(y) <= j < block_base(y) + 3
                    && sol[j][i] == v;
            assert(in_grid(i, j));
            assert(!(i == x && j == y));
            assert(cell_consistent(g[j][i], sol[j][i]));
            match g[j][i] {
                CellV::Known(w) => {
                    assert(known_at(g, i, j, v));
                    assert(block_blocks(g, x, y, v));
                },
                CellV::Empty => {
                    assert(could_take(g[j][i], v));
                },
                CellV::Possible(s) => {
                    assert(could_take(g[j][i], v));
                },
            }
            assert(false);
        }
    }
}

proof fn lemma_first_forced_found(g: GridV, x: int, y: int, vals: Seq<int>)
    ensures
        first_forced(g, x, y, vals) matches Some(v) ==> vals.contains(v) && forced_at(g, x, y, v),
    decreases vals.len(),
{
    if vals.len() > 0 {
        if forced_at(g, x, y, vals[0]) {
            assert(vals.contains(vals[0]));
        } else {
            lemma_first_forced_found(g, x, y, vals.drop_first());
            match first_forced(g, x, y, vals) {
                Some(v) => {
                    assert(vals.drop_first().contains(v));
                    let k = choose|k: int|
                        0 <= k < vals.drop_first().len() && vals.drop_first()[k] == v;
                    assert(vals[k + 1] == v);
                    assert(vals.contains(v));
                },
                None => {},
            }
        }
    }
}

/// One sweep of a grid that agrees with a solution cannot fail, and its
/// output agrees with the solution again.
proof fn lemma_sweep_consistent(g: GridV, sol: Seq<Seq<int>>)
    requires
        grid_wf(g),
        is_solution(sol),
        consistent(g, sol),
    ensures
        first_bad_pos(g) is None,
        consistent(sweep_grid(g), sol),
        grid_wf(sweep_grid(g)),
{
    assert forall|x: int, y: int| in_grid(x, y) implies #[trigger] cell_ok(g, x, y) by {
        if !(g[y][x] is Known) {
            lemma_solution_value_placeable(g, sol, x, y);
        }
    }
    assert forall|x: int, y: int| in_grid(x, y) implies cell_consistent(
        #[trigger] sweep_grid(g)[y][x],
        sol[y][x],
    ) by {
        assert(sweep_grid(g)[y][x] == sweep_cell(g, x, y));
        if g[y][x] is Known {
            assert(cell_consistent(g[y][x], sol[y][x]));
        } else {
            lemma_solution_value_placeable(g, sol, x, y);
            let cs = candidates(g, x, y);
            let w = sol[y][x];
            let k = choose|k: int| 0 <= k < cs.len() && cs[k] == w;
            if cs.len() == 1 {
                assert(cs[0] == w);
            } else {
                match first_forced(g, x, y, cs) {
                    Some(v) => {
                        lemma_first_forced_found(g, x, y, cs);
                        lemma_candidates_contains(g, x, y, v);
                        lemma_forced_matches_solution(g, sol, x, y, v);
                    },
                    None => {},
                }
            }
        }
    }
    lemma_first_bad_in_row_skip_all(g);
}

proof fn lemma_first_bad_in_row_skip_all(g: GridV)
    requires
        forall|x: int, y: int| in_grid(x, y) ==> cell_ok(g, x, y),
    ensures
        first_bad_pos(g) is None,
{
    assert forall|y: int| 0 <= y < SIZE implies first_bad_in_row_from(g, y, 0) is None by {
        assert forall|xx: int| 0 <= xx < SIZE implies cell_ok(g, xx, y) by {
            assert(in_grid(xx, y));
        }
        lemma_first_bad_in_row_skip(g, y, SIZE as int);
    }
    lemma_first_bad_row_skip(g, SIZE as int);
}

/// No-conflict invariant: on a puzzle that agrees with some complete
/// solution, the solve loop never fails, and the grid it returns agrees
/// with that solution too; in particular no two known cells of any row,
/// column or block of the returned grid share a value.
pub proof fn lemma_solve_no_conflicts(g: GridV, sol: Seq<Seq<int>>, fuel: nat)
    requires
        grid_wf(g),
        is_solution(sol),
        consistent(g, sol),
    ensures
        solve_from(g, fuel) matches Ok(r) && consistent(r, sol) && no_conflicts(r) && grid_wf(r),
    decreases fuel,
{
    lemma_sweep_consistent(g, sol);
    if sweep_progress(g) == 0 || fuel == 0 {
        lemma_consistent_no_conflicts(sweep_grid(g), sol);
    } else {
        lemma_solve_no_conflicts(sweep_grid(g), sol, (fuel - 1) as nat);
    }
}

} // verus!
