//! How threads that park and threads that unpark them come to an end together.
use crate::model::{missed, parked, released};
use crate::releases::lemma_one_for_each;
use crate::runs::{
    law_parked_threads_balance, law_releases_balance, law_unpark_all_reaches_everyone,
    law_unpark_lets_threads_return, law_unparked_threads_use_releases,
};
use crate::step::{ParkAction, ParkEvent, ParkResult};
use crate::system::{
    law_initial_system_is_consistent, law_runs_keep_consistency, law_steps_keep_consistency, Step,
    System,
};
use std::sync::{Arc, Condvar};
use vstd::prelude::*;
use vstd::set_lib::*;

verus! {

/// What a thread is told that wakes up in time and was unparked.
pub open spec fn returns_unparked(system: System, thread: int) -> bool {
    system.action(thread, ParkEvent::Woken { timed_out: false }) == (ParkAction::Return {
        result: ParkResult::Unparked,
    })
}

/// Threads that stay are still parked where they were, and each of the others has returned.
proof fn lemma_those_who_stay(system: System, steps: Seq<Step>, threads: Set<int>, key: usize)
    requires
        system.runs(steps),
        threads.finite(),
        threads.subset_of(system.waiters(key)),
    ensures
        system.staying(steps, threads).finite(),
        system.staying(steps, threads).subset_of(threads),
        system.staying(steps, threads).subset_of(system.run(steps).waiters(key)),
        threads.len() <= system.staying(steps, threads).len() + system.total_returned(steps, key),
    decreases steps.len(),
{
    if steps.len() > 0 {
        lemma_those_who_stay(system, steps.drop_last(), threads, key);
        let before = system.run(steps.drop_last());
        let staying = system.staying(steps.drop_last(), threads);
        match steps.last() {
            Step::Turn { thread, event } => {
                if staying.contains(thread) {
                    assert(before.waiters(key).contains(thread));
                }
            },
            _ => {},
        }
    }
}

/// Once every thread that has parked under a key has returned, nothing is left there.
pub proof fn law_nothing_is_left_behind(steps: Seq<Step>, key: usize)
    requires
        System::initial().runs(steps),
        System::initial().total_returned(steps, key) == System::initial().total_parked(steps, key),
    ensures
        !System::initial().run(steps).table.contains_key(key),
        parked(System::initial().run(steps).table, key) == 0,
{
    law_initial_system_is_consistent();
    law_parked_threads_balance(System::initial(), steps, key);
    law_runs_keep_consistency(System::initial(), steps);
}

/// One thread sets a flag and then unparks all threads under a key. Another thread parks
/// there, without a timeout, unless it finds the flag set. Nobody else uses the key.
///
/// Whatever the order in which the flag is set, all are unparked and the other thread parks,
/// its park is refused and the unpark counts nobody, or the unpark counts one thread, and that
/// thread returns as unparked as soon as it wakes up.
pub proof fn law_no_wakeup_is_lost(
    system: System,
    key: usize,
    thread: int,
    fresh: Arc<Condvar>,
    set_at: int,
    unpark_at: int,
    park_at: int,
    steps: Seq<Step>,
    later: Seq<Step>,
)
    requires
        system.consistent(),
        !system.table.contains_key(key),
        !system.waiting.contains_key(thread),
        set_at < unpark_at,
        park_at != set_at,
        park_at != unpark_at,
        ({
            let park = Step::Park { thread, key, timeout: None, fresh };
            let refused = set_at < park_at;
            let start = if park_at < unpark_at && !refused {
                system.next(park)
            } else {
                system
            };
            &&& start.runs(steps)
            &&& start.total_parked(steps, key) == 0
            &&& start.total_released(steps, key) == 0
            &&& start.total_timed_out(steps, key) == 0
            &&& start.run(steps).next(Step::UnparkAll { key }).runs(later)
        }),
    ensures
        ({
            let park = Step::Park { thread, key, timeout: None, fresh };
            let refused = set_at < park_at;
            let start = if park_at < unpark_at && !refused {
                system.next(park)
            } else {
                system
            };
            let count = start.run(steps).released_by(Step::UnparkAll { key }, key);
            let after = start.run(steps).next(Step::UnparkAll { key });
            if refused {
                count == 0
            } else {
                &&& count == 1
                &&& after.waiters(key) == set![thread]
                &&& after.staying(later, set![thread]).contains(thread) ==> returns_unparked(
                    after.run(later),
                    thread,
                )
            }
        }),
{
    let park = Step::Park { thread, key, timeout: None, fresh };
    let refused = set_at < park_at;
    let start = if park_at < unpark_at && !refused {
        system.next(park)
    } else {
        system
    };
    if park_at < unpark_at && !refused {
        law_steps_keep_consistency(system, park);
    }
    law_parked_threads_balance(start, steps, key);
    law_releases_balance(start, steps, key);
    law_unparked_threads_use_releases(start, steps, key);
    if !refused {
        let end = start.run(steps);
        assert(parked(system.table, key) == system.waiters(key).len());
        assert(start.waiters(key) =~= set![thread]);
        lemma_those_who_stay(start, steps, set![thread], key);
        law_runs_keep_consistency(start, steps);
        lemma_len_subset(start.staying(steps, set![thread]), set![thread]);
        lemma_subset_equality(start.staying(steps, set![thread]), set![thread]);
        assert(end.waiters(key).contains(thread));
        assert(parked(end.table, key) == end.waiters(key).len());
        lemma_subset_equality(set![thread], end.waiters(key));
        let after = end.next(Step::UnparkAll { key });
        assert(after.waiters(key) =~= end.waiters(key));
        if after.staying(later, set![thread]).contains(thread) {
            law_unpark_all_reaches_everyone(end, key, later, thread, false);
        }
    }
}

/// While all threads under a key are parked without a timeout: after an unpark of all, no more
/// threads return than it has counted, and all of them as unparked. As long as fewer have
/// returned, one that was parked at the unpark is left, and returns as soon as it wakes up;
/// then no release is left.
pub proof fn law_as_many_return_as_are_counted(system: System, key: usize, steps: Seq<Step>)
    requires
        system.consistent(),
        released(system.table, key) == 0,
        system.next(Step::UnparkAll { key }).runs(steps),
        system.next(Step::UnparkAll { key }).total_released(steps, key) == 0,
        system.next(Step::UnparkAll { key }).total_timed_out(steps, key) == 0,
    ensures
        ({
            let after = system.next(Step::UnparkAll { key });
            let count = system.released_by(Step::UnparkAll { key }, key);
            let returned = after.total_returned(steps, key);
            let left = after.staying(steps, system.waiters(key));
            let end = after.run(steps);
            &&& returned <= count
            &&& after.total_unparked(steps, key) == returned
            &&& returned < count ==> exists|thread: int| left.contains(thread)
            &&& forall|thread: int| #[trigger]
                left.contains(thread) ==> end.waiters(key).contains(thread) && returns_unparked(
                    end,
                    thread,
                )
            &&& returned == count ==> released(end.table, key) == 0
        }),
{
    let unpark = Step::UnparkAll { key };
    let after = system.next(unpark);
    let threads = system.waiters(key);
    let left = after.staying(steps, threads);
    law_steps_keep_consistency(system, unpark);
    law_releases_balance(after, steps, key);
    law_unparked_threads_use_releases(after, steps, key);
    assert(parked(system.table, key) == threads.len());
    assert(after.waiters(key) =~= threads);
    lemma_those_who_stay(after, steps, threads, key);
    if after.total_returned(steps, key) < system.released_by(unpark, key) {
        assert(left.contains(left.choose()));
    }
    assert forall|thread: int| #[trigger] left.contains(thread) implies after.run(steps).waiters(
        key,
    ).contains(thread) && returns_unparked(after.run(steps), thread) by {
        law_unpark_all_reaches_everyone(system, key, steps, thread, false);
    }
}

/// `count` threads park under a key, none of them runs out of time, and unparks of the key, of
/// single threads or of all, are repeated until they have counted `count` threads. Then every
/// thread that is still parked returns as unparked as soon as it wakes up, and when all have
/// returned, they have returned as unparked and their spot is gone.
pub proof fn law_all_threads_return_in_the_end(steps: Seq<Step>, key: usize, count: nat)
    requires
        System::initial().runs(steps),
        System::initial().total_parked(steps, key) == count,
        System::initial().total_released(steps, key) == count,
        System::initial().total_timed_out(steps, key) == 0,
    ensures
        ({
            let end = System::initial().run(steps);
            let returned = System::initial().total_returned(steps, key);
            &&& returned <= count
            &&& System::initial().total_unparked(steps, key) == returned
            &&& end.waiters(key).len() == count - returned
            &&& forall|thread: int| #[trigger]
                end.waiters(key).contains(thread) ==> returns_unparked(end, thread)
            &&& returned == count ==> !end.table.contains_key(key)
        }),
{
    let initial = System::initial();
    let end = initial.run(steps);
    law_initial_system_is_consistent();
    law_parked_threads_balance(initial, steps, key);
    law_releases_balance(initial, steps, key);
    law_unparked_threads_use_releases(initial, steps, key);
    law_runs_keep_consistency(initial, steps);
    assert(parked(end.table, key) == end.waiters(key).len());
    assert forall|thread: int| #[trigger] end.waiters(key).contains(thread) implies returns_unparked(
        end,
        thread,
    ) by {
        assert(end.waiting.contains_key(thread));
        lemma_one_for_each(
            end.table[key],
            end.table[key].parked,
            end.waiting[thread].ticket,
        );
    }
}

/// While all threads under a key are parked without a timeout and there is no release: after
/// an unpark of one thread, and no other unpark, exactly one of the threads returns. Until one
/// has, each thread that was parked at the unpark returns as unparked as soon as it wakes up,
/// and after that no thread does.
pub proof fn law_an_unpark_of_one_returns_one(
    system: System,
    key: usize,
    steps: Seq<Step>,
    thread: int,
)
    requires
        system.consistent(),
        released(system.table, key) == 0,
        system.released_by(Step::Unpark { key, n: 1 }, key) == 1,
        system.next(Step::Unpark { key, n: 1 }).runs(steps),
        system.next(Step::Unpark { key, n: 1 }).total_released(steps, key) == 0,
        system.next(Step::Unpark { key, n: 1 }).total_timed_out(steps, key) == 0,
    ensures
        ({
            let after = system.next(Step::Unpark { key, n: 1 });
            let returned = after.total_returned(steps, key);
            let end = after.run(steps);
            &&& returned <= 1
            &&& after.total_unparked(steps, key) == returned
            &&& returned == 0 && system.waiters(key).contains(thread) ==> end.waiters(
                key,
            ).contains(thread) && returns_unparked(end, thread)
            &&& returned == 1 && end.waiters(key).contains(thread) ==> end.action(
                thread,
                ParkEvent::Woken { timed_out: false },
            ) == ParkAction::ReadClock
        }),
{
    let unpark = Step::Unpark { key, n: 1 };
    let after = system.next(unpark);
    let threads = system.waiters(key);
    law_steps_keep_consistency(system, unpark);
    law_releases_balance(after, steps, key);
    law_unparked_threads_use_releases(after, steps, key);
    law_runs_keep_consistency(after, steps);
    assert(parked(system.table, key) == threads.len());
    assert(after.waiters(key) =~= threads);
    lemma_those_who_stay(after, steps, threads, key);
    if after.total_returned(steps, key) == 0 && threads.contains(thread) {
        lemma_len_subset(after.staying(steps, threads), threads);
        lemma_subset_equality(after.staying(steps, threads), threads);
        law_unpark_lets_threads_return(system, unpark, key, steps, thread, false);
    }
    let end = after.run(steps);
    if after.total_returned(steps, key) == 1 && end.waiters(key).contains(thread) {
        assert(end.waiting.contains_key(thread));
        assert(end.table[key].releases.len() == 0);
        assert(missed(end.table[key].releases, end.waiting[thread].ticket) == 0);
    }
}

/// Each of `threads` wakes up in turn, out of time if `timed_out` says so.
pub open spec fn wake_ups(threads: Seq<int>, timed_out: Seq<bool>) -> Seq<Step> {
    Seq::new(
        threads.len(),
        |i: int|
            Step::Turn { thread: threads[i], event: ParkEvent::Woken { timed_out: timed_out[i] } },
    )
}

/// After an unpark of all threads under a key, once each of them has woken up, in whatever
/// order and for whatever reason, they have all returned and their spot is gone.
pub proof fn law_unpark_all_empties_the_spot(
    system: System,
    key: usize,
    threads: Seq<int>,
    timed_out: Seq<bool>,
)
    requires
        system.consistent(),
        threads.no_duplicates(),
        threads.len() == timed_out.len(),
        threads.to_set() == system.waiters(key),
    ensures
        ({
            let after = system.next(Step::UnparkAll { key });
            let steps = wake_ups(threads, timed_out);
            &&& after.runs(steps)
            &&& after.total_returned(steps, key) == threads.len()
            &&& !after.run(steps).table.contains_key(key)
        }),
{
    let after = system.next(Step::UnparkAll { key });
    let steps = wake_ups(threads, timed_out);
    law_steps_keep_consistency(system, Step::UnparkAll { key });
    assert(after.waiters(key) =~= system.waiters(key));
    lemma_wake_ups_return(system, key, threads, timed_out);
    law_runs_keep_consistency(after, steps);
    assert(after.run(steps).waiters(key) =~= Set::empty());
    assert(parked(after.run(steps).table, key) == after.run(steps).waiters(key).len());
}

/// After an unpark of all threads under a key, those that wake up return.
proof fn lemma_wake_ups_return(
    system: System,
    key: usize,
    threads: Seq<int>,
    timed_out: Seq<bool>,
)
    requires
        system.consistent(),
        threads.no_duplicates(),
        threads.len() == timed_out.len(),
        threads.to_set().subset_of(system.waiters(key)),
    ensures
        ({
            let after = system.next(Step::UnparkAll { key });
            let steps = wake_ups(threads, timed_out);
            let left = system.waiters(key).difference(threads.to_set());
            &&& after.runs(steps)
            &&& after.total_returned(steps, key) == threads.len()
            &&& after.run(steps).waiters(key) == left
            &&& after.staying(steps, system.waiters(key)) == left
        }),
    decreases threads.len(),
{
    let after = system.next(Step::UnparkAll { key });
    let steps = wake_ups(threads, timed_out);
    if threads.len() == 0 {
        assert(after.waiters(key) =~= system.waiters(key));
        assert(system.waiters(key).difference(threads.to_set()) =~= system.waiters(key));
    } else {
        let first = threads.drop_last();
        let last = threads.last();
        assert(threads.to_set() =~= first.to_set().insert(last)) by {
            assert forall|thread: int| threads.contains(thread) implies thread == last
                || first.contains(thread) by {
                let i = threads.index_of(thread);
                if i < first.len() {
                    assert(first[i] == thread);
                }
            }
            assert forall|thread: int| first.contains(thread) implies threads.contains(thread) by {
                let i = first.index_of(thread);
                assert(threads[i] == thread);
            }
            assert(threads[threads.len() - 1] == last);
        }
        assert(!first.contains(last));
        assert(threads.to_set().contains(last));
        lemma_wake_ups_return(system, key, first, timed_out.drop_last());
        assert(steps.drop_last() =~= wake_ups(first, timed_out.drop_last()));
        let before = after.run(steps.drop_last());
        assert(after.staying(steps.drop_last(), system.waiters(key)).contains(last));
        law_unpark_all_reaches_everyone(
            system,
            key,
            steps.drop_last(),
            last,
            timed_out[timed_out.len() - 1],
        );
        let left = system.waiters(key).difference(threads.to_set());
        assert(before.waiters(key).remove(last) =~= left);
        assert(after.run(steps).waiters(key) =~= before.waiters(key).remove(last));
        assert(after.staying(steps, system.waiters(key)) =~= left);
    }
}

} // verus!
