//! The requests the game interface takes, as plain values.
pub mod lightsout;
pub mod maze;
pub mod minesweeper;
pub mod nonogram;
pub mod sokoban;
