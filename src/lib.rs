//! Generates hard Sudoku puzzles by reduction to SAT: a CNF formula, written in DIMACS form,
//! whose models are the puzzles with a given number of clues, with their solutions, that
//! human-style inference rules solve within a bounded number of steps, and no sooner.

pub mod positive_i32;
pub mod variable;
pub mod literal;
pub mod sudoku;
pub mod formula_builder;
pub mod gate;
pub mod cardinality;
pub mod arithmetic;
pub mod bit_vector;
pub mod emit_problem;
pub mod models;
pub mod iter_singleton;
pub mod solver_output;
