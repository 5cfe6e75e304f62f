//! Time-based dispatch core of a background-job processing library.
//!
//! Two subsystems share one synchronization idea: the scheduled dispatcher
//! drains due entries from time-ordered sets into immediate queues, and the
//! periodic scheduler advances cron-defined recurring definitions while
//! dispatching exactly one occurrence per tick.  Both rely solely on the
//! atomic conditional operations of a time-ordered claim store.

pub mod codec;
pub mod cron;
pub mod dispatch;
pub mod store;
pub mod wire;

use vstd::prelude::*;

verus! {

/// Errors raised by the cron expression engine.
#[derive(Clone, Copy, Debug, PartialEq, Eq, Structural)]
pub enum CronError {
    /// The expression text does not follow the 6-field grammar.
    InvalidExpression,
    /// No matching timestamp exists within the search horizon.
    NoMatchFound,
}

/// Error raised by the envelope and definition codecs.
#[derive(Clone, Copy, Debug, PartialEq, Eq, Structural)]
pub enum CodecError {
    /// The stored text is not a structurally valid encoding.
    MalformedEnvelope,
}

} // verus!
