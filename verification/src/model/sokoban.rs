use vstd::prelude::*;

verus! {

pub const SOKOBAN_DIFFICULTY_EASY: &'static str = "easy";
pub const SOKOBAN_DIFFICULTY_NORMAL: &'static str = "normal";
pub const SOKOBAN_DIFFICULTY_HARD: &'static str = "hard";

/// Starts a round at the given difficulty.
#[derive(Debug, Clone, PartialEq, Eq, Default)]
pub struct SokobanStartRequest {
    pub difficulty: String,
}

/// Moves the player one step in a round; `direction` is a move's name.
#[derive(Debug, Clone, PartialEq, Eq, Default)]
pub struct SokobanMoveRequest {
    pub session_id: i32,
    pub direction: String,
}

} // verus!
