use vstd::prelude::*;

verus! {

pub const MINESWEEPER_DIFFICULTY_BEGINNER: &'static str = "beginner";
pub const MINESWEEPER_DIFFICULTY_INTERMEDIATE: &'static str = "intermediate";
pub const MINESWEEPER_DIFFICULTY_EXPERT: &'static str = "expert";

/// The board of a difficulty: its size and how many mines it hides.
#[derive(Debug, Clone, PartialEq, Eq, Default)]
pub struct MinesweeperDifficultyConfig {
    pub cols: i32,
    pub rows: i32,
    pub mines: i32,
}

/// Starts a round at the given difficulty.
#[derive(Debug, Clone, PartialEq, Eq, Default)]
pub struct MinesweeperStartRequest {
    pub difficulty: String,
}

/// Applies `action` (reveal, flag, ...) to the square at column `x`, row `y` in a round.
#[derive(Debug, Clone, PartialEq, Eq, Default)]
pub struct MinesweeperClickRequest {
    pub play_id: i32,
    pub action: String,
    pub x: i32,
    pub y: i32,
}

/// A square whose flag changed: column, row, and whether it is flagged now.
#[derive(Debug, Clone, PartialEq, Eq, Default)]
pub struct MinesweeperFlagDelta(pub i32, pub i32, pub bool);

/// What one click changed: the squares it revealed as `[x, y, number]`, the flags it changed,
/// and how the round stands.
#[derive(Debug, Clone, PartialEq, Eq, Default)]
pub struct MinesweeperClickDelta {
    pub first_click: Option<[i32; 2]>,
    pub revealed_cells: Vec<[i32; 3]>,
    pub flagged_cells: Vec<MinesweeperFlagDelta>,
    pub hit_mine: bool,
    pub lost: bool,
    pub won: bool,
}

} // verus!
