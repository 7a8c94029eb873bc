//! The send future's state machine: `Pending` until its first poll posts the
//! send, `Started` while the one-shot of the completion is awaited, `Done`
//! once it resolved.

use vstd::prelude::*;
use crate::incoming::SwitchState;

verus! {

/// Where a send future stands.
#[derive(Clone, Copy, Debug, PartialEq, Eq, Structural)]
pub enum SendPhase {
    /// Not polled yet: the message waits to be encoded and posted.
    Pending,
    /// Posted: the completion one-shot is awaited.
    Started,
    /// Resolved.
    Done,
}

/// What a poll of a send future does first.
#[derive(Clone, Copy, Debug, PartialEq, Eq, Structural)]
pub enum SendAction {
    /// Resolve at once, with no effect.
    Finish,
    /// Encode the message, post the send with a fresh one-shot, then poll it.
    Post,
    /// Poll the one-shot.
    PollReceiver,
}

/// What polling the completion one-shot gave.
#[derive(Clone, Copy, Debug, PartialEq, Eq, Structural)]
pub enum OneshotPoll {
    /// The completion callback has run.
    Ready,
    /// The send is still outstanding.
    NotReady,
    /// The sending half was dropped without a value: the pool is gone.
    Canceled,
}

/// What a poll of a send future does in `phase`.  A pending send whose
/// switch is closed or gone completes with no effect; so does polling a
/// finished one.
pub fn send_action(phase: SendPhase, switch: SwitchState) -> (r: SendAction)
    ensures
        phase == SendPhase::Pending ==> r == (if switch == SwitchState::Open {
            SendAction::Post
        } else {
            SendAction::Finish
        }),
        phase == SendPhase::Started ==> r == SendAction::PollReceiver,
        phase == SendPhase::Done ==> r == SendAction::Finish,
{
    match phase {
        SendPhase::Pending => match switch {
            SwitchState::Open => SendAction::Post,
            _ => SendAction::Finish,
        },
        SendPhase::Started => SendAction::PollReceiver,
        SendPhase::Done => SendAction::Finish,
    }
}

/// The phase after the one-shot was polled, and whether the future is ready.
/// A cancelled one-shot counts as success.
pub fn after_receiver(p: OneshotPoll) -> (r: (SendPhase, bool))
    ensures
        r == (if p == OneshotPoll::NotReady {
            (SendPhase::Started, false)
        } else {
            (SendPhase::Done, true)
        }),
{
    match p {
        OneshotPoll::NotReady => (SendPhase::Started, false),
        _ => (SendPhase::Done, true),
    }
}

} // verus!
