//! The condition variables of `std::sync`, as far as a parking spot handles them.
use std::sync::{Arc, Condvar};
use vstd::prelude::*;

verus! {

/// `std::sync::Condvar`: carried from place to place, never looked into.
#[verifier::external_type_specification]
#[verifier::external_body]
pub struct ExCondvar(std::sync::Condvar);

/// `Condvar::new` creates a condition variable. Nothing is claimed of it.
pub assume_specification[ std::sync::Condvar::new ]() -> (cvar: Condvar)
;

/// A condition variable, and a record of the notifications that were made on it.
///
/// The record is written where a notification is made, and nowhere else.
pub struct Bell {
    cvar: Arc<Condvar>,
    singles: Ghost<nat>,
    broadcasts: Ghost<nat>,
}

impl Bell {
    /// The condition variable.
    pub closed spec fn cvar(&self) -> Arc<Condvar> {
        self.cvar
    }

    /// How often a single thread was notified.
    pub closed spec fn singles(&self) -> nat {
        self.singles@
    }

    /// How often all threads were notified.
    pub closed spec fn broadcasts(&self) -> nat {
        self.broadcasts@
    }

    /// A new condition variable, on which nobody was notified.
    pub(crate) fn new() -> (bell: Bell)
        ensures
            bell.singles() == 0,
            bell.broadcasts() == 0,
    {
        Bell { cvar: Arc::new(Condvar::new()), singles: Ghost(0), broadcasts: Ghost(0) }
    }

    /// Another pointer to the condition variable, for a thread to wait on.
    pub(crate) fn share(&self) -> (cvar: Arc<Condvar>)
        ensures
            cvar == self.cvar(),
    {
        self.cvar.clone()
    }

    /// `Condvar::notify_one` notifies one thread that waits on the condition variable, if
    /// there is any. Claimed is that the call is made: the record grows by one single
    /// notification. Which thread wakes up, and when, is not claimed.
    #[verifier::external_body]
    pub(crate) fn notify_one(&mut self)
        ensures
            final(self).cvar() == old(self).cvar(),
            final(self).singles() == old(self).singles() + 1,
            final(self).broadcasts() == old(self).broadcasts(),
    {
        self.cvar.notify_one();
    }

    /// `Condvar::notify_all` notifies every thread that waits on the condition variable.
    /// Claimed is that the call is made: the record grows by one notification of all. When
    /// the threads wake up is not claimed.
    #[verifier::external_body]
    pub(crate) fn notify_all(&mut self)
        ensures
            final(self).cvar() == old(self).cvar(),
            final(self).singles() == old(self).singles(),
            final(self).broadcasts() == old(self).broadcasts() + 1,
    {
        self.cvar.notify_all();
    }
}

} // verus!
