//! The decisions of playing a sokoban round move by move.
use vstd::prelude::*;

use super::Outcome;

verus! {

/// The most moves a round may take before it is given up.
pub const MAX_STEPS: usize = 10000;

/// What to do after a move was answered.
#[derive(Debug, Clone, Copy, PartialEq, Eq, Structural)]
pub enum AfterMove {
    /// Send the next move of the plan.
    Continue,
    /// The round is over: look at how it stands.
    Settle,
    /// Too many moves: give the round up as failed.
    GiveUp,
}

/// The moves sent in a round so far.
pub struct SokobanRun {
    pub steps: usize,
}

impl SokobanRun {
    pub fn new() -> (r: SokobanRun)
        ensures
            r.steps == 0,
    {
        SokobanRun { steps: 0 }
    }

    /// Counts an answered move and decides what comes next, given how the round stands now.
    pub fn after_move(&mut self, outcome: Outcome) -> (r: AfterMove)
        requires
            old(self).steps <= MAX_STEPS,
        ensures
            final(self).steps == old(self).steps + 1,
            outcome != Outcome::Open ==> r == AfterMove::Settle,
            outcome == Outcome::Open && final(self).steps > MAX_STEPS ==> r == AfterMove::GiveUp,
            outcome == Outcome::Open && final(self).steps <= MAX_STEPS ==> r == AfterMove::Continue,
    {
        self.steps = self.steps + 1;
        if outcome != Outcome::Open {
            AfterMove::Settle
        } else if self.steps > MAX_STEPS {
            AfterMove::GiveUp
        } else {
            AfterMove::Continue
        }
    }
}

} // verus!
