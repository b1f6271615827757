pub mod count;
pub mod minesweeper;
