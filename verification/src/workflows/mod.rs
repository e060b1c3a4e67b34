//! The decisions of playing rounds against the game server.
use vstd::prelude::*;

pub mod minesweeper;
pub mod sokoban;

verus! {

/// How a round of sokoban or nonogram stands.
#[derive(Debug, Clone, Copy, PartialEq, Eq, Structural)]
pub enum Outcome {
    Won,
    Failed,
    Open,
}

/// Reads a round's status: won when it says "won" or the won flag is set; failed when it says
/// "failed", "abandoned" or "lost"; open otherwise.
pub fn session_outcome(status: &String, won: bool) -> (r: Outcome)
    ensures
        (r == Outcome::Won) == (status@ == "won"@ || won),
        (r == Outcome::Failed) == (!(status@ == "won"@ || won)
            && (status@ == "failed"@ || status@ == "abandoned"@ || status@ == "lost"@)),
{
    if *status == "won".to_owned() || won {
        Outcome::Won
    } else if *status == "failed".to_owned() || *status == "abandoned".to_owned() || *status == "lost".to_owned() {
        Outcome::Failed
    } else {
        Outcome::Open
    }
}

} // verus!
