//! What an unpark promises, whatever the threads do before and after it.
use crate::model::{
    earlier, has_room, held, is_parked, least, lemma_missed_come_first, lemma_missed_is,
    lemma_no_more_releases_than_threads, missed, next_ticket, parked, released,
};
use crate::releases::{
    lemma_one_for_each, lemma_grant_reserves, lemma_reserved_after_grant,
    lemma_reserved_after_leave, lemma_reserved_can_be_used, lemma_settled_after_grant,
    lemma_settled_after_leave, lemma_settled_threads_can_use, reserved, settled,
};
use crate::step::{ParkAction, ParkEvent, ParkResult};
use crate::system::{
    law_initial_system_is_consistent, law_runs_keep_consistency, law_steps_keep_consistency, Step,
    System,
};
use std::sync::{Arc, Condvar};
use vstd::prelude::*;
use vstd::set_lib::*;

verus! {

/// A thread that is parked is known to its spot, so it can always take a turn, and what an
/// unpark of its key notifies is the condition variable it waits on.
pub proof fn law_parked_threads_have_a_spot(system: System, thread: int)
    requires
        system.consistent(),
        system.waiting.contains_key(thread),
    ensures
        is_parked(system.table, system.waiting[thread].key, system.waiting[thread].ticket),
        system.table[system.waiting[thread].key].cvar == system.waiting[thread].cvar,
{
}

/// There is a spot under a key exactly if a thread is parked under it: nothing is left behind
/// when the last thread has returned.
pub proof fn law_spots_have_parked_threads(system: System, key: usize)
    requires
        system.consistent(),
    ensures
        system.table.contains_key(key) <==> exists|thread: int| #[trigger]
            system.waiting.contains_key(thread) && system.waiting[thread].key == key,
{
    let waiters = system.waiters(key);
    assert(parked(system.table, key) == waiters.len());
    if system.table.contains_key(key) {
        assert(waiters.len() > 0);
        let thread = waiters.choose();
        assert(waiters.contains(thread));
        assert(system.waiting.contains_key(thread));
    }
}

/// The threads parked under a key are those that have parked and have not returned.
pub proof fn law_parked_threads_balance(system: System, steps: Seq<Step>, key: usize)
    requires
        system.consistent(),
        system.runs(steps),
    ensures
        parked(system.run(steps).table, key) + system.total_returned(steps, key) == parked(
            system.table,
            key,
        ) + system.total_parked(steps, key),
    decreases steps.len(),
{
    if steps.len() > 0 {
        let before = system.run(steps.drop_last());
        law_parked_threads_balance(system, steps.drop_last(), key);
        law_runs_keep_consistency(system, steps.drop_last());
        law_steps_keep_consistency(before, steps.last());
        if steps.last() matches Step::Park { key: k, .. } && k == key && before.table.contains_key(
            key,
        ) {
            assert(!before.table[key].parked.contains(before.table[key].next));
        }
    }
}

/// The releases that are outstanding under a key are those that unparks have returned and no
/// thread has used up: each of them lets exactly one thread return.
pub proof fn law_releases_balance(system: System, steps: Seq<Step>, key: usize)
    requires
        system.consistent(),
        system.runs(steps),
    ensures
        released(system.run(steps).table, key) + system.total_used(steps, key) == released(
            system.table,
            key,
        ) + system.total_released(steps, key),
    decreases steps.len(),
{
    if steps.len() > 0 {
        let before = system.run(steps.drop_last());
        law_releases_balance(system, steps.drop_last(), key);
        law_runs_keep_consistency(system, steps.drop_last());
        if before.table.contains_key(key) {
            lemma_no_more_releases_than_threads(before.table[key]);
        }
        match steps.last() {
            Step::Turn { thread, .. } => {
                if before.waiting[thread].key == key && before.table[key].releases.len()
                    == before.table[key].parked.len() {
                    lemma_one_for_each(
                        before.table[key],
                        before.table[key].parked,
                        before.waiting[thread].ticket,
                    );
                }
            },
            _ => {},
        }
    }
}

/// A thread that returns was unparked or is out of time. If it was unparked, it uses up a
/// release, and a thread uses up at most one.
pub proof fn law_unparked_threads_use_releases(system: System, steps: Seq<Step>, key: usize)
    ensures
        system.total_unparked(steps, key) + system.total_timed_out(steps, key)
            == system.total_returned(steps, key),
        system.total_unparked(steps, key) <= system.total_used(steps, key),
        system.total_used(steps, key) <= system.total_returned(steps, key),
    decreases steps.len(),
{
    if steps.len() > 0 {
        law_unparked_threads_use_releases(system, steps.drop_last(), key);
    }
}

/// No more threads return as unparked than unparks have counted.
pub proof fn law_no_thread_is_unparked_unasked(steps: Seq<Step>, key: usize)
    requires
        System::initial().runs(steps),
    ensures
        System::initial().total_unparked(steps, key) <= System::initial().total_released(
            steps,
            key,
        ),
{
    law_initial_system_is_consistent();
    law_releases_balance(System::initial(), steps, key);
    law_unparked_threads_use_releases(System::initial(), steps, key);
}

/// As long as fewer threads have parked under a key than can be counted and numbered, one more
/// can park there.
pub proof fn law_there_is_room_to_park(steps: Seq<Step>, key: usize)
    requires
        System::initial().runs(steps),
        System::initial().total_parked(steps, key) < usize::MAX,
        System::initial().total_parked(steps, key) < u64::MAX,
    ensures
        has_room(System::initial().run(steps).table, key),
{
    law_initial_system_is_consistent();
    law_parked_threads_balance(System::initial(), steps, key);
    lemma_numbers_count_arrivals(steps, key);
}

/// The number of the next thread is at most the number of threads that have parked.
proof fn lemma_numbers_count_arrivals(steps: Seq<Step>, key: usize)
    requires
        System::initial().runs(steps),
    ensures
        next_ticket(System::initial().run(steps).table, key) <= System::initial().total_parked(
            steps,
            key,
        ),
    decreases steps.len(),
{
    if steps.len() > 0 {
        lemma_numbers_count_arrivals(steps.drop_last(), key);
        law_initial_system_is_consistent();
        law_runs_keep_consistency(System::initial(), steps.drop_last());
    }
}

/// The threads that are parked under `key` with a number below `cut` are `threads`.
pub open spec fn early_threads(system: System, key: usize, cut: u64, threads: Set<int>) -> bool {
    &&& threads.finite()
    &&& system.table.contains_key(key)
    &&& cut <= system.table[key].next
    &&& forall|thread: int| #[trigger]
        threads.contains(thread) <==> system.waiters(key).contains(thread)
            && system.waiting[thread].ticket < cut
}

/// As long as one of the early threads stays, no step adds to them, and a step takes from
/// what there is for them at most what they use themselves.
proof fn lemma_steps_spare_early_threads(
    system: System,
    key: usize,
    cut: u64,
    step: Step,
    threads: Set<int>,
    count: int,
)
    requires
        system.consistent(),
        system.enabled(step),
        early_threads(system, key, cut, threads),
        system.staying_in(step, threads).len() > 0,
        reserved(system.table[key], cut, count),
    ensures
        early_threads(system.next(step), key, cut, system.staying_in(step, threads)),
        settled(system.table[key], cut) ==> settled(system.next(step).table[key], cut),
        reserved(
            system.next(step).table[key],
            cut,
            count - threads.len() + system.staying_in(step, threads).len(),
        ),
{
    let spot = system.table[key];
    let staying = system.staying_in(step, threads);
    let after = system.next(step);
    let other = staying.choose();
    assert(staying.contains(other));
    assert(threads.contains(other));
    assert(spot.wf());
    lemma_no_more_releases_than_threads(spot);
    match step {
        Step::Park { thread, key: k, .. } => {
            if k == key {
                assert(!earlier(spot.parked, cut).contains(spot.next));
                assert(earlier(after.table[key].parked, cut) =~= earlier(spot.parked, cut));
            }
        },
        Step::Turn { thread, event } => {
            let waiter = system.waiting[thread];
            if system.action(thread, event) is Return && waiter.key == key {
                assert(other != thread);
                assert(system.waiting.contains_key(other));
                assert(spot.parked.contains(waiter.ticket));
                assert(spot.parked.contains(system.waiting[other].ticket));
                assert(waiter.ticket != system.waiting[other].ticket);
                lemma_two_make_two(spot.parked, waiter.ticket, system.waiting[other].ticket);
                assert(system.waiters(key).contains(thread));
                if settled(spot, cut) {
                    lemma_settled_after_leave(spot, cut, waiter.ticket);
                }
                if count > 0 {
                    lemma_reserved_after_leave(spot, cut, count, waiter.ticket);
                }
            }
        },
        Step::Unpark { key: k, n } => {
            if k == key {
                let granted = least(n, held(system.table, key));
                if settled(spot, cut) {
                    lemma_settled_after_grant(spot, cut, granted);
                }
                lemma_reserved_after_grant(spot, cut, count, granted);
            }
        },
        Step::UnparkAll { key: k } => {
            if k == key {
                let granted = held(system.table, key);
                if settled(spot, cut) {
                    lemma_settled_after_grant(spot, cut, granted);
                }
                lemma_reserved_after_grant(spot, cut, count, granted);
            }
        },
    }
    assert forall|t: int| #[trigger] staying.contains(t) <==> after.waiters(key).contains(t)
        && after.waiting[t].ticket < cut by {
        assert(threads.contains(t) <==> system.waiters(key).contains(t)
            && system.waiting[t].ticket < cut);
    }
}

/// A set with two members in it has at least two.
proof fn lemma_two_make_two(numbers: Set<u64>, a: u64, b: u64)
    requires
        numbers.finite(),
        numbers.contains(a),
        numbers.contains(b),
        a != b,
    ensures
        numbers.len() >= 2,
{
    lemma_len_subset(set![a, b], numbers);
    assert(set![a, b].len() == 2);
}

/// As long as one of the early threads stays, no run adds to them, and a run takes from what
/// there is for them at most what they use themselves.
proof fn lemma_runs_spare_early_threads(
    system: System,
    key: usize,
    cut: u64,
    steps: Seq<Step>,
    threads: Set<int>,
    count: int,
)
    requires
        system.consistent(),
        system.runs(steps),
        early_threads(system, key, cut, threads),
        system.staying(steps, threads).len() > 0,
        reserved(system.table[key], cut, count),
    ensures
        early_threads(system.run(steps), key, cut, system.staying(steps, threads)),
        settled(system.table[key], cut) ==> settled(system.run(steps).table[key], cut),
        reserved(
            system.run(steps).table[key],
            cut,
            count - threads.len() + system.staying(steps, threads).len(),
        ),
    decreases steps.len(),
{
    if steps.len() > 0 {
        let first = steps.drop_last();
        let before = system.staying(first, threads);
        lemma_staying_is_finite(system, first, threads);
        lemma_len_subset(system.staying(steps, threads), before);
        lemma_runs_spare_early_threads(system, key, cut, first, threads, count);
        law_runs_keep_consistency(system, first);
        lemma_steps_spare_early_threads(
            system.run(first),
            key,
            cut,
            steps.last(),
            before,
            count - threads.len() + before.len(),
        );
    }
}

/// Those that stay are some of the threads.
proof fn lemma_staying_is_finite(system: System, steps: Seq<Step>, threads: Set<int>)
    requires
        threads.finite(),
    ensures
        system.staying(steps, threads).finite(),
        system.staying(steps, threads).subset_of(threads),
    decreases steps.len(),
{
    if steps.len() > 0 {
        lemma_staying_is_finite(system, steps.drop_last(), threads);
    }
}

/// An unpark finds the threads that are parked under its key, and grants them what it counts.
proof fn lemma_unpark_grants(system: System, unpark: Step, key: usize)
    requires
        system.consistent(),
        system.released_by(unpark, key) > 0,
    ensures
        ({
            let after = system.next(unpark);
            let cut = system.table[key].next;
            &&& after.consistent()
            &&& after.waiting == system.waiting
            &&& early_threads(after, key, cut, system.waiters(key))
            &&& reserved(after.table[key], cut, system.released_by(unpark, key) as int)
        }),
{
    let spot = system.table[key];
    law_steps_keep_consistency(system, unpark);
    lemma_no_more_releases_than_threads(spot);
    lemma_grant_reserves(spot, system.released_by(unpark, key));
    assert forall|t: int| #[trigger] system.waiters(key).contains(t) implies system.waiting[t].ticket
        < spot.next by {
        assert(system.waiting.contains_key(t));
        assert(spot.parked.contains(system.waiting[t].ticket));
    }
    assert(system.next(unpark).waiters(key) =~= system.waiters(key));
}

/// If an unpark returns `count`, then until `count` of the threads that were parked under its
/// key have returned, every other of them returns as soon as it wakes up. Threads that park
/// later do not matter.
pub proof fn law_unpark_lets_threads_return(
    system: System,
    unpark: Step,
    key: usize,
    steps: Seq<Step>,
    thread: int,
    timed_out: bool,
)
    requires
        system.consistent(),
        system.next(unpark).runs(steps),
        system.next(unpark).staying(steps, system.waiters(key)).contains(thread),
        system.waiters(key).len() - system.next(unpark).staying(
            steps,
            system.waiters(key),
        ).len() < system.released_by(unpark, key),
    ensures
        system.next(unpark).run(steps).waiters(key).contains(thread),
        system.next(unpark).run(steps).action(thread, ParkEvent::Woken { timed_out }) == (
        ParkAction::Return {
            result: if timed_out {
                ParkResult::TimedOut
            } else {
                ParkResult::Unparked
            },
        }),
{
    let after = system.next(unpark);
    let threads = system.waiters(key);
    let cut = system.table[key].next;
    let count = system.released_by(unpark, key) as int;
    lemma_staying_is_finite(after, steps, threads);
    lemma_len_subset(after.staying(steps, threads), threads);
    assert(after.staying(steps, threads).len() > 0);
    lemma_unpark_grants(system, unpark, key);
    lemma_runs_spare_early_threads(after, key, cut, steps, threads, count);
    law_runs_keep_consistency(after, steps);
    let end = after.run(steps);
    lemma_reserved_can_be_used(
        end.table[key],
        cut,
        count - threads.len() + after.staying(steps, threads).len(),
        end.waiting[thread].ticket,
    );
}

/// After all threads under a key are unparked, each thread that was parked there returns as
/// soon as it wakes up, whatever it and other threads have done in between.
pub proof fn law_unpark_all_reaches_everyone(
    system: System,
    key: usize,
    steps: Seq<Step>,
    thread: int,
    timed_out: bool,
)
    requires
        system.consistent(),
        system.next(Step::UnparkAll { key }).runs(steps),
        system.next(Step::UnparkAll { key }).staying(steps, system.waiters(key)).contains(thread),
    ensures
        system.next(Step::UnparkAll { key }).run(steps).waiters(key).contains(thread),
        system.next(Step::UnparkAll { key }).run(steps).action(
            thread,
            ParkEvent::Woken { timed_out },
        ) == (ParkAction::Return {
            result: if timed_out {
                ParkResult::TimedOut
            } else {
                ParkResult::Unparked
            },
        }),
{
    let unpark = Step::UnparkAll { key };
    let after = system.next(unpark);
    let threads = system.waiters(key);
    let spot = system.table[key];
    lemma_staying_is_finite(after, steps, threads);
    assert(threads.contains(thread));
    assert(system.waiting.contains_key(thread));
    assert(after.staying(steps, threads).len() > 0);
    law_steps_keep_consistency(system, unpark);
    lemma_no_more_releases_than_threads(spot);
    lemma_grant_reserves(spot, held(system.table, key));
    assert(after.waiters(key) =~= threads);
    assert forall|t: int| #[trigger] threads.contains(t) implies system.waiting[t].ticket
        < spot.next by {
        assert(system.waiting.contains_key(t));
        assert(spot.parked.contains(system.waiting[t].ticket));
    }
    lemma_runs_spare_early_threads(
        after,
        key,
        spot.next,
        steps,
        threads,
        held(system.table, key) as int,
    );
    law_runs_keep_consistency(after, steps);
    let end = after.run(steps);
    assert(end.waiting.contains_key(thread));
    lemma_settled_threads_can_use(end.table[key], spot.next, end.waiting[thread].ticket);
}

/// A thread that parks cannot use a release that was granted before. Until an unpark of its
/// key counts somebody, it goes back to waiting whenever it wakes up in time, whatever other
/// threads do.
pub proof fn law_parked_threads_wait_until_unparked(
    system: System,
    thread: int,
    key: usize,
    timeout: Option<u128>,
    fresh: Arc<Condvar>,
    steps: Seq<Step>,
)
    requires
        system.consistent(),
        system.enabled(Step::Park { thread, key, timeout, fresh }),
        system.next(Step::Park { thread, key, timeout, fresh }).runs(steps),
        system.next(Step::Park { thread, key, timeout, fresh }).total_released(steps, key) == 0,
        system.next(Step::Park { thread, key, timeout, fresh }).staying(
            steps,
            set![thread],
        ).contains(thread),
    ensures
        system.next(Step::Park { thread, key, timeout, fresh }).run(steps).waiters(key).contains(
            thread,
        ),
        system.next(Step::Park { thread, key, timeout, fresh }).run(steps).action(
            thread,
            ParkEvent::Woken { timed_out: false },
        ) == ParkAction::ReadClock,
{
    let after = system.next(Step::Park { thread, key, timeout, fresh });
    let ticket = next_ticket(system.table, key);
    law_steps_keep_consistency(system, Step::Park { thread, key, timeout, fresh });
    assert(system.table.contains_key(key) ==> system.table[key].wf());
    lemma_nothing_for_newcomer(after, thread, key, ticket, steps);
    law_runs_keep_consistency(after, steps);
    let releases = after.run(steps).table[key].releases;
    lemma_missed_is(releases, ticket, releases.len());
}

/// While no unpark of the key counts anybody, a thread that came after all releases stays
/// parked under its number, and still comes after all releases.
proof fn lemma_nothing_for_newcomer(
    system: System,
    thread: int,
    key: usize,
    ticket: u64,
    steps: Seq<Step>,
)
    requires
        system.consistent(),
        system.runs(steps),
        system.waiters(key).contains(thread),
        system.waiting[thread].ticket == ticket,
        forall|i: int|
            0 <= i < system.table[key].releases.len() ==> #[trigger] system.table[key].releases[i]
                <= ticket,
        system.total_released(steps, key) == 0,
        system.staying(steps, set![thread]).contains(thread),
    ensures
        system.run(steps).waiters(key).contains(thread),
        system.run(steps).waiting[thread].ticket == ticket,
        forall|i: int|
            0 <= i < system.run(steps).table[key].releases.len() ==> #[trigger] system.run(
                steps,
            ).table[key].releases[i] <= ticket,
    decreases steps.len(),
{
    if steps.len() > 0 {
        let before = system.run(steps.drop_last());
        let after = system.run(steps);
        lemma_nothing_for_newcomer(system, thread, key, ticket, steps.drop_last());
        law_runs_keep_consistency(system, steps.drop_last());
        law_runs_keep_consistency(system, steps);
        assert(before.waiting.contains_key(thread));
        assert(after.waiting.contains_key(thread));
        let releases = before.table[key].releases;
        assert forall|i: int| 0 <= i < after.table[key].releases.len() implies
            #[trigger] after.table[key].releases[i] <= ticket by {
            match steps.last() {
                Step::Turn { thread: t, event } => {
                    let waiter = before.waiting[t];
                    if waiter.key == key && before.action(t, event) is Return
                        && before.table[key].can_use(waiter.ticket) {
                        let first = missed(releases, waiter.ticket) as int;
                        lemma_missed_come_first(releases, waiter.ticket);
                        if i < first {
                            assert(after.table[key].releases[i] == releases[i]);
                        } else {
                            assert(after.table[key].releases[i] == releases[i + 1]);
                        }
                    } else {
                        assert(after.table[key].releases[i] == releases[i]);
                    }
                },
                _ => {
                    assert(before.released_by(steps.last(), key) == 0);
                    assert(after.table[key].releases =~= releases);
                },
            }
        }
    }
}

/// Once every thread under a key has been unparked, and until another one parks there, a
/// further unpark counts nobody, however many of the threads wake up and leave in between.
pub proof fn law_no_thread_is_unparked_twice(
    system: System,
    key: usize,
    steps: Seq<Step>,
    unpark: Step,
)
    requires
        system.consistent(),
        held(system.table, key) == 0,
        system.runs(steps),
        system.total_parked(steps, key) == 0,
    ensures
        held(system.run(steps).table, key) == 0,
        system.run(steps).released_by(unpark, key) == 0,
    decreases steps.len(),
{
    if steps.len() > 0 {
        let before = system.run(steps.drop_last());
        law_no_thread_is_unparked_twice(system, key, steps.drop_last(), unpark);
        law_runs_keep_consistency(system, steps.drop_last());
        assert(before.parked_by(steps.last(), key) == 0);
        if before.table.contains_key(key) {
            let spot = before.table[key];
            lemma_no_more_releases_than_threads(spot);
            match steps.last() {
                Step::Turn { thread, .. } => {
                    if before.waiting[thread].key == key {
                        lemma_one_for_each(spot, spot.parked, before.waiting[thread].ticket);
                        lemma_missed_come_first(spot.releases, before.waiting[thread].ticket);
                    }
                },
                _ => {},
            }
        }
    }
}

} // verus!
