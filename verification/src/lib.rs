//! A 9x9 sudoku solver that works by iterative constraint propagation:
//! each sweep recomputes, for every unresolved cell, the set of values that
//! its row, column and block still allow, resolves naked and hidden singles,
//! and the solve loop repeats sweeps until one makes no progress.

pub mod csv_parser;
pub mod field;
pub mod solver;
