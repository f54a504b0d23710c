//! Starting a run from the canvas.
use vstd::prelude::*;

verus! {

/// Says that a run is being started for as long as it exists, whatever way the
/// attempt ends.
pub struct RunStartingGuard<'a> {
    pub run_starting: &'a mut bool,
}

impl<'a> RunStartingGuard<'a> {
    /// Marks that a run is being started.
    pub fn new(run_starting: &'a mut bool) -> (res: Self)
        ensures
            res.starting(),
            *final(res.run_starting) == *final(run_starting),
    {
        *run_starting = true;
        RunStartingGuard { run_starting }
    }

    /// Whether the mark is set.
    pub open spec fn starting(&self) -> bool {
        *self.run_starting
    }

    /// Whether the mark is set.
    pub fn is_starting(&self) -> (res: bool)
        ensures
            res == self.starting(),
    {
        *self.run_starting
    }
}

impl<'a> Drop for RunStartingGuard<'a> {
    fn drop(&mut self)
        ensures
            !final(self).starting(),
        opens_invariants none
        no_unwind
    {
        *self.run_starting = false;
    }
}

/// What comes of asking for a run.
#[derive(Clone, Copy, Debug, PartialEq, Eq, Structural)]
pub enum StartDecision {
    /// There is nothing to do: a run is in progress, or there is no plan.
    Nothing,
    /// The user is told that the conversation that owns the plan has to be open.
    NeedsConversation,
    Start,
}

/// Decides what comes of asking for a run.
pub fn start_decision(running: bool, has_plan: bool, has_conversation: bool) -> (res: StartDecision)
    ensures
        res == (if running || !has_plan {
            StartDecision::Nothing
        } else if !has_conversation {
            StartDecision::NeedsConversation
        } else {
            StartDecision::Start
        }),
{
    if running || !has_plan {
        StartDecision::Nothing
    } else if !has_conversation {
        StartDecision::NeedsConversation
    } else {
        StartDecision::Start
    }
}

/// What the user is told where the conversation that owns the plan is not open.
pub fn conversation_notice() -> (res: &'static str)
    ensures
        res@
            == "Architect needs the conversation that owns this plan to be open in the agent panel."@,
{
    "Architect needs the conversation that owns this plan to be open in the agent panel."
}

/// Whether a run is in progress: one is being started, or the conversation has one
/// that has not ended.
pub fn is_running(run_starting: bool, run_in_progress: bool) -> (res: bool)
    ensures
        res == (run_starting || run_in_progress),
{
    run_starting || run_in_progress
}

} // verus!
