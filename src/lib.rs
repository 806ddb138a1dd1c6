//! Logic-based Sudoku solving: a grid of cells with candidate sets, the row,
//! column and block regions that constrain them, and the strategies that
//! narrow or resolve candidates.

pub mod data;
pub mod strategies;
pub mod solver;
pub mod puzzle;
