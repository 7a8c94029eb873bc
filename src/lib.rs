//! Bookkeeping for driving nonblocking point-to-point requests from a
//! cooperative, future-based poll loop.
//!
//! The library holds the decisions: which requests are outstanding, which
//! completion callbacks belong to them, how a completion sweep compacts the
//! pool, how teardown is planned, and how the send and receive adapters and
//! the switch react to what the messaging layer reports.  Issuing the native
//! calls themselves is left to the caller.

pub mod convert;
pub mod buffer;
pub mod codec;
pub mod request_poll;
pub mod switch;
pub mod incoming;
pub mod send;
