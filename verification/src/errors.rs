use vstd::prelude::*;

verus! {

/// Malformed user input; carries the message shown to the requester.
#[derive(Debug, Clone)]
pub struct InvalidInputError(pub String);

impl InvalidInputError {
    /// The message text.
    pub fn message(&self) -> (r: &String)
        ensures
            r@ == self.0@,
    {
        &self.0
    }
}

/// Failure of one assignment run.  Neither is retried internally: the caller
/// may rebuild the pool and start over.
#[derive(Debug, Clone, Copy, PartialEq, Eq, Structural)]
pub enum SelectError {
    /// A roster player has no entry in the candidate pool.
    UnknownPlayer,
    /// A player's candidate list was exhausted (by earlier global removal)
    /// before their own pick.
    EmptyCandidateSet,
}

/// Terminal state of one team's jungle-requirement repair.  `Unrepairable` is
/// a valid outcome, not an error: the team is simply left without a
/// jungle-capable champion.
#[derive(Debug, Clone, Copy, PartialEq, Eq, Structural)]
pub enum RepairOutcome {
    /// The initial picks already held a jungle-capable champion.
    Satisfied,
    /// One player's champion was replaced by a jungle-capable one.
    Repaired,
    /// No player had a jungle-capable candidate left in the pool.
    Unrepairable,
}

} // verus!
