//! Many threads around one parking table, and what holds of all of them together.
//!
//! A [`System`] is a table together with the threads that wait in it. Its steps are the
//! operations on the table, in any order that the threads can take them; each does to the
//! table what the contract of that operation says. Threads can wake up at any time and for any
//! reason.
use crate::model::{
    after_action, after_enter, after_unpark, after_unpark_all, has_room, held, is_parked, least,
    lemma_enter_keeps_wf, lemma_grant_keeps_wf, lemma_leave_keeps_wf,
    lemma_no_more_releases_than_threads, next_ticket, park_action, parked, well_formed, Table,
};
use crate::step::{ParkAction, ParkEvent, ParkResult};
use std::sync::{Arc, Condvar};
use vstd::prelude::*;
use vstd::set_lib::*;

verus! {

/// A thread that is parked: the key it is parked under, its number there, the longest time it
/// wants to be parked for, and the condition variable it waits on.
pub struct Waiter {
    pub key: usize,
    pub ticket: u64,
    pub timeout: Option<u128>,
    pub cvar: Arc<Condvar>,
}

/// A parking table, and the threads that are parked in it.
pub struct System {
    pub table: Table,
    pub waiting: Map<int, Waiter>,
}

/// Something that one thread does to the table.
pub enum Step {
    /// `thread` parks under `key`. It brings the condition variable `fresh`, which is used
    /// if nobody is parked under `key` yet.
    Park { thread: int, key: usize, timeout: Option<u128>, fresh: Arc<Condvar> },
    /// `thread`, which is parked, takes a turn.
    Turn { thread: int, event: ParkEvent },
    /// Some thread unparks up to `n` threads under `key`.
    Unpark { key: usize, n: nat },
    /// Some thread unparks all threads under `key`.
    UnparkAll { key: usize },
}

impl System {
    /// Nobody is parked.
    pub open spec fn initial() -> System {
        System { table: Map::empty(), waiting: Map::empty() }
    }

    /// Whether `step` can be taken: a thread parks when it is not parked and there is room for
    /// it, and takes turns while it is parked.
    pub open spec fn enabled(self, step: Step) -> bool {
        match step {
            Step::Park { thread, key, .. } => !self.waiting.contains_key(thread) && has_room(
                self.table,
                key,
            ),
            Step::Turn { thread, .. } => self.waiting.contains_key(thread),
            _ => true,
        }
    }

    /// What `thread` is told when it takes a turn.
    pub open spec fn action(self, thread: int, event: ParkEvent) -> ParkAction {
        let waiter = self.waiting[thread];
        park_action(self.table, waiter.key, waiter.ticket, waiter.timeout, event)
    }

    /// What `step` makes of the system.
    pub open spec fn next(self, step: Step) -> System {
        match step {
            Step::Park { thread, key, timeout, fresh } => {
                let table = after_enter(self.table, key, fresh);
                let ticket = next_ticket(self.table, key);
                let waiter = Waiter { key, ticket, timeout, cvar: table[key].cvar };
                System { table, waiting: self.waiting.insert(thread, waiter) }
            },
            Step::Turn { thread, event } => {
                let waiter = self.waiting[thread];
                let action = self.action(thread, event);
                System {
                    table: after_action(self.table, waiter.key, waiter.ticket, action),
                    waiting: if action is Return {
                        self.waiting.remove(thread)
                    } else {
                        self.waiting
                    },
                }
            },
            Step::Unpark { key, n } => System {
                table: after_unpark(self.table, key, least(n, held(self.table, key))),
                ..self
            },
            Step::UnparkAll { key } => System { table: after_unpark_all(self.table, key), ..self },
        }
    }

    /// What a sequence of steps makes of the system.
    pub open spec fn run(self, steps: Seq<Step>) -> System
        decreases steps.len(),
    {
        if steps.len() == 0 {
            self
        } else {
            self.run(steps.drop_last()).next(steps.last())
        }
    }

    /// Whether a sequence of steps can be taken, one after the other.
    pub open spec fn runs(self, steps: Seq<Step>) -> bool
        decreases steps.len(),
    {
        steps.len() > 0 ==> self.runs(steps.drop_last()) && self.run(steps.drop_last()).enabled(
            steps.last(),
        )
    }

    /// The sum of what `f` says of each step of a run and of the system that takes it.
    pub open spec fn total(self, steps: Seq<Step>, f: spec_fn(System, Step) -> nat) -> nat
        decreases steps.len(),
    {
        if steps.len() == 0 {
            0
        } else {
            self.total(steps.drop_last(), f) + f(self.run(steps.drop_last()), steps.last())
        }
    }

    /// How many threads `step` parks under `key`.
    pub open spec fn parked_by(self, step: Step, key: usize) -> nat {
        if step matches Step::Park { key: k, .. } && k == key {
            1
        } else {
            0
        }
    }

    /// Whether `step` is a turn in which a thread parked under `key` returns.
    pub open spec fn returns_from(self, step: Step, key: usize) -> bool {
        step matches Step::Turn { thread, event } && self.waiting[thread].key == key
            && self.action(thread, event) is Return
    }

    /// Whether `step` is a turn in which a thread parked under `key` returns with `result`.
    pub open spec fn returns_with(self, step: Step, key: usize, result: ParkResult) -> bool {
        step matches Step::Turn { thread, event } && self.waiting[thread].key == key
            && self.action(thread, event) == (ParkAction::Return { result })
    }

    /// How many threads parked under `key` return in `step`.
    pub open spec fn returned_by(self, step: Step, key: usize) -> nat {
        if self.returns_from(step, key) {
            1
        } else {
            0
        }
    }

    /// How many threads parked under `key` return in `step` because they were unparked.
    pub open spec fn unparked_by(self, step: Step, key: usize) -> nat {
        if self.returns_with(step, key, ParkResult::Unparked) {
            1
        } else {
            0
        }
    }

    /// How many threads parked under `key` return in `step` because their time is up.
    pub open spec fn timed_out_by(self, step: Step, key: usize) -> nat {
        if self.returns_with(step, key, ParkResult::TimedOut) {
            1
        } else {
            0
        }
    }

    /// How many releases threads parked under `key` use up in `step`.
    pub open spec fn used_by(self, step: Step, key: usize) -> nat {
        if self.returns_from(step, key) && (step matches Step::Turn { thread, .. }
            && self.table[key].can_use(self.waiting[thread].ticket)) {
            1
        } else {
            0
        }
    }

    /// What an unpark of `key` returns in `step`.
    pub open spec fn released_by(self, step: Step, key: usize) -> nat {
        match step {
            Step::Unpark { key: k, n } => if k == key {
                least(n, held(self.table, key))
            } else {
                0
            },
            Step::UnparkAll { key: k } => if k == key {
                held(self.table, key)
            } else {
                0
            },
            _ => 0,
        }
    }

    /// How many threads park under `key` in a run.
    pub open spec fn total_parked(self, steps: Seq<Step>, key: usize) -> nat {
        self.total(steps, |s: System, step: Step| s.parked_by(step, key))
    }

    /// How many threads parked under `key` return in a run.
    pub open spec fn total_returned(self, steps: Seq<Step>, key: usize) -> nat {
        self.total(steps, |s: System, step: Step| s.returned_by(step, key))
    }

    /// How many threads parked under `key` return in a run because they were unparked.
    pub open spec fn total_unparked(self, steps: Seq<Step>, key: usize) -> nat {
        self.total(steps, |s: System, step: Step| s.unparked_by(step, key))
    }

    /// How many threads parked under `key` return in a run because their time is up.
    pub open spec fn total_timed_out(self, steps: Seq<Step>, key: usize) -> nat {
        self.total(steps, |s: System, step: Step| s.timed_out_by(step, key))
    }

    /// How many releases threads parked under `key` use up in a run.
    pub open spec fn total_used(self, steps: Seq<Step>, key: usize) -> nat {
        self.total(steps, |s: System, step: Step| s.used_by(step, key))
    }

    /// The sum of what the unparks of `key` return in a run.
    pub open spec fn total_released(self, steps: Seq<Step>, key: usize) -> nat {
        self.total(steps, |s: System, step: Step| s.released_by(step, key))
    }

    /// Those of `threads` that do not return in `step`.
    pub open spec fn staying_in(self, step: Step, threads: Set<int>) -> Set<int> {
        match step {
            Step::Turn { thread, event } => if self.action(thread, event) is Return {
                threads.remove(thread)
            } else {
                threads
            },
            _ => threads,
        }
    }

    /// Those of `threads` that have not returned in a run.
    pub open spec fn staying(self, steps: Seq<Step>, threads: Set<int>) -> Set<int>
        decreases steps.len(),
    {
        if steps.len() == 0 {
            threads
        } else {
            self.run(steps.drop_last()).staying_in(
                steps.last(),
                self.staying(steps.drop_last(), threads),
            )
        }
    }

    /// The threads that are parked under `key`.
    pub open spec fn waiters(self, key: usize) -> Set<int> {
        self.waiting.dom().filter(|thread: int| self.waiting[thread].key == key)
    }

    /// The table knows the threads that are parked, each by a number of its own, and each of
    /// them waits on the condition variable of its spot.
    pub open spec fn consistent(self) -> bool {
        &&& well_formed(self.table)
        &&& self.waiting.dom().finite()
        &&& forall|key: usize| #[trigger] parked(self.table, key) == self.waiters(key).len()
        &&& forall|thread: int| #[trigger]
            self.waiting.contains_key(thread) ==> {
                let waiter = self.waiting[thread];
                is_parked(self.table, waiter.key, waiter.ticket) && self.table[waiter.key].cvar
                    == waiter.cvar
            }
        &&& forall|t: int, u: int| #[trigger]
            self.waiting.contains_key(t) && #[trigger] self.waiting.contains_key(u) && t != u
                && self.waiting[t].key == self.waiting[u].key ==> self.waiting[t].ticket
                != self.waiting[u].ticket
    }
}

/// Every step keeps the system consistent.
pub proof fn law_steps_keep_consistency(system: System, step: Step)
    requires
        system.consistent(),
        system.enabled(step),
    ensures
        system.next(step).consistent(),
{
    let after = system.next(step);
    lemma_steps_keep_wf(system, step);
    match step {
        Step::Park { thread, key, .. } => {
            assert forall|k: usize| #[trigger]
                parked(after.table, k) == after.waiters(k).len() by {
                assert(parked(system.table, k) == system.waiters(k).len());
                if k == key {
                    assert(after.waiters(k) =~= system.waiters(k).insert(thread));
                } else {
                    assert(after.waiters(k) =~= system.waiters(k));
                }
            }
        },
        Step::Turn { thread, event } => {
            let key = system.waiting[thread].key;
            if system.action(thread, event) is Return {
                assert(parked(system.table, key) == system.waiters(key).len());
                assert(system.waiters(key).contains(thread));
                assert forall|k: usize| #[trigger]
                    parked(after.table, k) == after.waiters(k).len() by {
                    assert(parked(system.table, k) == system.waiters(k).len());
                    if k == key {
                        assert(after.waiters(k) =~= system.waiters(k).remove(thread));
                    } else {
                        assert(after.waiters(k) =~= system.waiters(k));
                    }
                }
                assert forall|t: int| #[trigger] after.waiting.contains_key(t) implies {
                    let waiter = after.waiting[t];
                    is_parked(after.table, waiter.key, waiter.ticket)
                        && after.table[waiter.key].cvar == waiter.cvar
                } by {
                    assert(system.waiting.contains_key(t));
                    if system.waiting[t].key == key {
                        assert(after.waiters(key).contains(t));
                        assert(parked(after.table, key) == after.waiters(key).len());
                    }
                }
            }
        },
        _ => {
            assert forall|k: usize| #[trigger]
                parked(after.table, k) == after.waiters(k).len() by {
                assert(parked(system.table, k) == system.waiters(k).len());
                assert(after.waiters(k) =~= system.waiters(k));
            }
        },
    }
}

/// Every step keeps the table well-formed.
proof fn lemma_steps_keep_wf(system: System, step: Step)
    requires
        system.consistent(),
        system.enabled(step),
    ensures
        well_formed(system.next(step).table),
{
    let table = system.table;
    match step {
        Step::Park { key, .. } => {
            if table.contains_key(key) {
                lemma_enter_keeps_wf(table[key]);
            }
        },
        Step::Turn { thread, event } => {
            let waiter = system.waiting[thread];
            if table[waiter.key].parked.len() > 1 {
                lemma_leave_keeps_wf(table[waiter.key], waiter.ticket);
            }
        },
        Step::Unpark { key, n } => {
            if table.contains_key(key) {
                lemma_no_more_releases_than_threads(table[key]);
                lemma_grant_keeps_wf(table[key], least(n, held(table, key)));
            }
        },
        Step::UnparkAll { key } => {
            if table.contains_key(key) {
                lemma_no_more_releases_than_threads(table[key]);
                lemma_grant_keeps_wf(table[key], held(table, key));
            }
        },
    }
}

/// Whatever the threads do, the table knows the threads that are parked, each by a number of
/// its own, and each of them waits on the condition variable of its spot.
pub proof fn law_runs_keep_consistency(system: System, steps: Seq<Step>)
    requires
        system.consistent(),
        system.runs(steps),
    ensures
        system.run(steps).consistent(),
    decreases steps.len(),
{
    if steps.len() > 0 {
        law_runs_keep_consistency(system, steps.drop_last());
        law_steps_keep_consistency(system.run(steps.drop_last()), steps.last());
    }
}

/// A system in which nobody is parked is consistent.
pub proof fn law_initial_system_is_consistent()
    ensures
        System::initial().consistent(),
{
    assert forall|key: usize| #[trigger]
        parked(System::initial().table, key) == System::initial().waiters(key).len() by {
        assert(System::initial().waiters(key) =~= Set::empty());
    }
}

} // verus!
