pub(crate) mod sets;
pub mod lightsout;
pub mod maze;
pub mod minesweeper;
pub mod nonogram;
pub mod sokoban;
