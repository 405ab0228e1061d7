//! A Sudoku engine: the board and its uniqueness rules, candidate deduction,
//! a solver, a generator of completed boards and a reducer that turns a
//! completed board into a puzzle.

pub mod app;
pub mod sudoku;
