//! Producer-side protocol: how each message polled from the worker's
//! result channel is acted on. The channel and thread plumbing live
//! outside the library; the decisions live here.

use vstd::prelude::*;
use crate::job::JobMessage;
use crate::model::VowelEstimate;

verus! {

/// What one non-blocking receive on the result channel yielded.
pub enum RecvOutcome {
    Message(JobMessage),
    Empty,
    Disconnected,
}

/// What the producer does about it: deliver the estimate to the host,
/// ask the worker to shut itself down after a protocol violation, report
/// the worker's death, or nothing.
pub enum PollAction {
    Updated(VowelEstimate),
    RequestShutdown,
    NotifyFailure,
    Idle,
}

/// The poll rule: a result is delivered; any other message on the result
/// channel is a protocol violation answered with a shutdown request; a
/// dead channel is reported as a failure; an empty channel is ignored.
pub open spec fn poll_action_spec(r: RecvOutcome) -> PollAction {
    match r {
        RecvOutcome::Message(m) => match m {
            JobMessage::OutputData(v) => PollAction::Updated(v),
            _ => PollAction::RequestShutdown,
        },
        RecvOutcome::Empty => PollAction::Idle,
        RecvOutcome::Disconnected => PollAction::NotifyFailure,
    }
}

/// Decides the producer's reaction to one polled outcome.
pub fn poll_action(r: RecvOutcome) -> (a: PollAction)
    ensures
        a == poll_action_spec(r),
{
    match r {
        RecvOutcome::Message(m) => match m {
            JobMessage::OutputData(v) => PollAction::Updated(v),
            _ => PollAction::RequestShutdown,
        },
        RecvOutcome::Empty => PollAction::Idle,
        RecvOutcome::Disconnected => PollAction::NotifyFailure,
    }
}

} // verus!
