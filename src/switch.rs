//! The state that a switch owns: the request pool and the shutdown flag, and
//! what one poll of the switch does with them.

use vstd::prelude::*;
use crate::request_poll::RequestPoll;

verus! {

/// What one poll of the switch does.
#[derive(Clone, Copy, Debug, PartialEq, Eq, Structural)]
pub enum SwitchStep {
    /// Shutdown was asked for: the switch resolves.
    Finished,
    /// Run a nonblocking completion sweep, re-arm, and yield.
    Sweep,
}

/// The request pool with the shutdown flag.
pub struct SwitchCore<R, C> {
    /// The outstanding requests.
    pub pool: RequestPoll<R, C>,
    /// Whether shutdown was asked for.
    pub stop: bool,
}

impl<R, C> SwitchCore<R, C> {
    /// Whether shutdown was asked for.
    pub open spec fn spec_stopped(&self) -> bool {
        self.stop
    }

    /// The same state with shutdown asked for.
    pub open spec fn closed(self) -> Self {
        SwitchCore { pool: self.pool, stop: true }
    }

    /// A running switch with an empty pool.
    pub fn new() -> (r: Self)
        ensures
            r.pool.wf(),
            r.pool.spec_len() == 0,
            !r.spec_stopped(),
    {
        SwitchCore { pool: RequestPoll::new(), stop: false }
    }

    /// Whether shutdown was asked for.
    pub fn is_stopped(&self) -> (r: bool)
        ensures
            r == self.spec_stopped(),
    {
        self.stop
    }

    /// Asks for shutdown.  The pool is left as it is; the requests in it are
    /// cancelled or waited on when the switch is torn down.
    pub fn close(&mut self)
        ensures
            *final(self) == old(self).closed(),
            final(self).spec_stopped(),
            final(self).pool == old(self).pool,
    {
        self.stop = true;
    }

    /// What one poll does: resolve once shutdown was asked for, else sweep
    /// the pool and yield.
    pub fn poll_step(&self) -> (r: SwitchStep)
        ensures
            r == (if self.spec_stopped() { SwitchStep::Finished } else { SwitchStep::Sweep }),
    {
        if self.stop {
            SwitchStep::Finished
        } else {
            SwitchStep::Sweep
        }
    }
}

/// Asking for shutdown a second time changes nothing: closing twice leaves
/// the same state as closing once.
pub proof fn lemma_close_idempotent<R, C>(s: SwitchCore<R, C>)
    ensures
        s.closed().closed() == s.closed(),
        s.closed().spec_stopped(),
        s.closed().pool == s.pool,
{
}

} // verus!
