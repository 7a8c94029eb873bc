//! What one poll of an incoming stream does: end once the switch is closed
//! or gone, otherwise probe, and on a match post a receive into a buffer of
//! exactly the probed size.

use vstd::prelude::*;
use crate::convert::element_count;

verus! {

/// What a link finds when it looks for its switch.
#[derive(Clone, Copy, Debug, PartialEq, Eq, Structural)]
pub enum SwitchState {
    /// The switch was dropped.
    Gone,
    /// The switch is there but shutdown was asked for.
    Closed,
    /// The switch is running.
    Open,
}

/// What a poll of an incoming stream does before it probes.
#[derive(Clone, Copy, Debug, PartialEq, Eq, Structural)]
pub enum IncomingStart {
    /// Emit end-of-stream.
    EndOfStream,
    /// Issue a nonblocking matched probe.
    Probe,
}

/// What the stream does with the result of a probe.
#[derive(Clone, Copy, Debug, PartialEq, Eq, Structural)]
pub enum IncomingStep {
    /// Nothing matched: re-arm the task and yield.
    Rearm,
    /// A message of this many elements matched: allocate a buffer of that
    /// size, post the matched receive, and yield its future.
    Receive(usize),
    /// The messaging layer reported an undefined count.
    BadCount,
}

/// Whether a poll of an incoming stream probes or ends the stream.
pub fn incoming_start(switch: SwitchState) -> (r: IncomingStart)
    ensures
        r == (if switch == SwitchState::Open {
            IncomingStart::Probe
        } else {
            IncomingStart::EndOfStream
        }),
{
    match switch {
        SwitchState::Open => IncomingStart::Probe,
        _ => IncomingStart::EndOfStream,
    }
}

/// What to do with a probe result: `None` when nothing matched, else the
/// element count of the matched message.
pub fn incoming_step(probe: Option<i32>) -> (r: IncomingStep)
    ensures
        probe is None ==> r == IncomingStep::Rearm,
        probe matches Some(c) ==> r == (if c >= 0 {
            IncomingStep::Receive(c as usize)
        } else {
            IncomingStep::BadCount
        }),
{
    match probe {
        None => IncomingStep::Rearm,
        Some(count) => match element_count(count) {
            Some(len) => IncomingStep::Receive(len),
            None => IncomingStep::BadCount,
        },
    }
}

} // verus!
