//! Solving and generating 9x9 Sudoku puzzles by depth-first backtracking.
pub mod grid;
pub mod rules;
pub mod solver;
pub mod difficulty;
pub mod generator;
pub mod cli;
