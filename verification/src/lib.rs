pub mod digits;
pub mod solver;
pub mod sudoku;
pub mod text;

pub use digits::DIGITSET;
pub use solver::Solver;
pub use sudoku::{Fill, PValue, Sudoku, SudokuError, Value, View};
