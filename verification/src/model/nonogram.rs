use vstd::prelude::*;

verus! {

pub const NONOGRAM_DIFFICULTY_EASY: &'static str = "easy";
pub const NONOGRAM_DIFFICULTY_NORMAL: &'static str = "normal";
pub const NONOGRAM_DIFFICULTY_HARD: &'static str = "hard";
pub const NONOGRAM_ACTION_FILL: &'static str = "fill";

/// Starts a round at the given difficulty.
#[derive(Debug, Clone, PartialEq, Eq, Default)]
pub struct NonogramStartRequest {
    pub difficulty: String,
}

/// Applies `action` to the square at row `r`, column `c` in a round.
#[derive(Debug, Clone, PartialEq, Eq, Default)]
pub struct NonogramClickRequest {
    pub session_id: i32,
    pub action: String,
    pub r: i32,
    pub c: i32,
}

} // verus!
