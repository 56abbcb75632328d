//! A 9x9 Sudoku library: a constraint checker, a backtracking solver, a validator for
//! finished boards and a generator of solvable puzzles. A board is nine rows of nine
//! characters, each a digit `'1'..='9'` or `'.'` for an empty cell.
pub mod checker;
pub mod generator;
pub mod grid;
pub mod solver;
pub mod validator;

pub use checker::is_safe;
pub use generator::{all_digits, generate_sudoku, seeded_grid};
pub use grid::{array_to_vec, box_cells, digit, pattern_board, EMPTY};
pub use solver::{givens_consistent, solve, solve_sudoku};
pub use validator::{check_boxes, check_row_col, is_solved};
