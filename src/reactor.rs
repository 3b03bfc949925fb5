//! Decisions of the accept loop. The loop itself waits on the readiness
//! primitive and performs the actions chosen here.
use vstd::prelude::*;

verus! {

/// How one attempt to accept a connection on the listener came out.
#[derive(Clone, Copy, Debug, PartialEq, Eq, Structural)]
pub enum AcceptOutcome {
    /// A connection was accepted.
    Accepted,
    /// No connection was pending.
    WouldBlock,
    /// Accepting failed for another reason.
    Failed,
}

/// What the loop does after an accept attempt. No action ends the loop.
#[derive(Clone, Copy, Debug, PartialEq, Eq, Structural)]
pub enum ReactorAction {
    /// Hand the accepted stream to the connection handler, then go on.
    HandOff,
    /// Nothing to do: go back to waiting for readiness.
    KeepWaiting,
    /// Report the failure, then go on.
    ReportAndContinue,
}

pub open spec fn action_for(outcome: AcceptOutcome) -> ReactorAction {
    match outcome {
        AcceptOutcome::Accepted => ReactorAction::HandOff,
        AcceptOutcome::WouldBlock => ReactorAction::KeepWaiting,
        AcceptOutcome::Failed => ReactorAction::ReportAndContinue,
    }
}

/// Whether a readiness event calls for an accept: only events of the
/// listener's own token do.
pub fn wants_accept(event_token: usize, listener_token: usize) -> (r: bool)
    ensures
        r == (event_token == listener_token),
{
    event_token == listener_token
}

/// The action that follows an accept attempt.
pub fn on_accept(outcome: AcceptOutcome) -> (a: ReactorAction)
    ensures
        a == action_for(outcome),
{
    match outcome {
        AcceptOutcome::Accepted => ReactorAction::HandOff,
        AcceptOutcome::WouldBlock => ReactorAction::KeepWaiting,
        AcceptOutcome::Failed => ReactorAction::ReportAndContinue,
    }
}

/// An accept that would block is not an error: the loop goes back to
/// waiting, and only an accepted connection is handed off.
pub proof fn lemma_would_block_keeps_waiting(outcome: AcceptOutcome)
    ensures
        outcome == AcceptOutcome::WouldBlock ==> action_for(outcome) == ReactorAction::KeepWaiting,
        action_for(outcome) == ReactorAction::HandOff <==> outcome == AcceptOutcome::Accepted,
{
}

} // verus!
