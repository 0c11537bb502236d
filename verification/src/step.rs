//! What a parking thread is told, and what it reports back.
//!
//! A thread that parks alternates between work that only it can do (reading the clock,
//! blocking on a condition variable) and decisions that are taken on the parking table. It
//! reports each piece of such work as a [`ParkEvent`] and is answered with a [`ParkAction`].
use vstd::prelude::*;

verus! {

/// Result of a park operation.
#[derive(Copy, Clone, Eq, PartialEq, Debug, Structural)]
pub enum ParkResult {
    /// Unparked by another thread.
    Unparked,
    /// The validation callback returned false.
    Invalid,
    /// The timeout expired.
    TimedOut,
}

/// What has happened to a parked thread since it was last told what to do.
#[derive(Copy, Clone, Eq, PartialEq, Debug, Structural)]
pub enum ParkEvent {
    /// The thread is about to wait, `elapsed` nanoseconds after it called `park`.
    Clock { elapsed: u128 },
    /// The thread has come back from waiting, because its time was up if `timed_out`, and
    /// otherwise on a notification or for no reason at all.
    Woken { timed_out: bool },
}

/// What a parked thread has to do next.
#[derive(Copy, Clone, Eq, PartialEq, Debug, Structural)]
pub enum ParkAction {
    /// Wait on the condition variable, and report [`ParkEvent::Woken`].
    Wait,
    /// Wait on the condition variable for at most `nanos` nanoseconds, and report
    /// [`ParkEvent::Woken`].
    WaitTimeout { nanos: u128 },
    /// Report [`ParkEvent::Clock`], to go on waiting.
    ReadClock,
    /// Return `result` from `park`: the thread is no longer parked.
    Return { result: ParkResult },
}

impl ParkEvent {
    /// Whether the event says that the time of a thread that parked with `timeout` is up.
    pub open spec fn expired(self, timeout: Option<u128>) -> bool {
        match self {
            ParkEvent::Clock { elapsed } => timeout matches Some(limit) && limit <= elapsed,
            ParkEvent::Woken { timed_out } => timed_out,
        }
    }
}

} // verus!
