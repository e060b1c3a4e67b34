use vstd::prelude::*;

verus! {

pub const MAZE_DIFFICULTY_EASY: &'static str = "easy";
pub const MAZE_DIFFICULTY_NORMAL: &'static str = "normal";
pub const MAZE_DIFFICULTY_HARD: &'static str = "hard";

/// Starts a round at the given difficulty.
#[derive(Debug, Clone, PartialEq, Eq, Default)]
pub struct MazeStartRequest {
    pub difficulty: String,
}

/// Moves the player one step in a round; `direction` is a move's name.
#[derive(Debug, Clone, PartialEq, Eq, Default)]
pub struct MazeMoveRequest {
    pub session_id: i32,
    pub direction: String,
}

} // verus!
