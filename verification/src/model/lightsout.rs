use vstd::prelude::*;

verus! {

pub const LIGHTSOUT_DIFFICULTY_EASY: &'static str = "easy";
pub const LIGHTSOUT_DIFFICULTY_NORMAL: &'static str = "normal";
pub const LIGHTSOUT_DIFFICULTY_HARD: &'static str = "hard";

/// Starts a round at the given difficulty.
#[derive(Debug, Clone, PartialEq, Eq, Default)]
pub struct LightsoutStartRequest {
    pub difficulty: String,
}

/// Presses the square at row `r`, column `c` in a round.
#[derive(Debug, Clone, PartialEq, Eq, Default)]
pub struct LightsoutClickRequest {
    pub session_id: i32,
    pub r: i32,
    pub c: i32,
}

} // verus!
