//! A verified Sudoku library: a 9x9 board holder, digit-string parsing, and a
//! brute-force backtracking search engine that hands out a snapshot of the
//! working board after every successful placement.

pub mod grid;
pub mod solver;
pub mod sudoku;
