//! What each operation does to a parking table, and how the operations relate to one another.
use crate::model::{
    after_action, after_enter, after_leave, after_unpark, after_unpark_all, has_room, held, least,
    lemma_missed_come_first, lemma_missed_is, lemma_no_more_releases_than_threads, missed,
    next_ticket, park_action, parked, well_formed, SpotView, Table,
};
use crate::step::{ParkAction, ParkEvent, ParkResult};
use crate::system::{Step, System};
use std::sync::{Arc, Condvar};
use vstd::prelude::*;
use vstd::set_lib::*;

verus! {

/// Unparking `n` threads and then `m` threads is unparking `n + m` threads: it counts,
/// releases and notifies the same.
pub proof fn law_unparks_add_up(table: Table, key: usize, n: nat, m: nat)
    requires
        well_formed(table),
    ensures
        ({
            let first = least(n, held(table, key));
            let between = after_unpark(table, key, first);
            let second = least(m, held(between, key));
            &&& first + second == least(n + m, held(table, key))
            &&& after_unpark(between, key, second) == after_unpark(table, key, first + second)
        }),
{
    let first = least(n, held(table, key));
    let between = after_unpark(table, key, first);
    let second = least(m, held(between, key));
    if table.contains_key(key) {
        lemma_no_more_releases_than_threads(table[key]);
        assert(after_unpark(between, key, second)[key].releases =~= after_unpark(
            table,
            key,
            first + second,
        )[key].releases);
    }
    assert(after_unpark(between, key, second) =~= after_unpark(table, key, first + second));
}

/// Unparking all threads counts and releases the same as unparking any number of threads that
/// is large enough.
pub proof fn law_unpark_all_is_a_large_unpark(table: Table, key: usize, n: nat)
    requires
        well_formed(table),
        parked(table, key) <= n,
    ensures
        least(n, held(table, key)) == held(table, key),
        table.contains_key(key) ==> after_unpark_all(table, key)[key] == (SpotView {
            singles: table[key].singles,
            broadcasts: table[key].broadcasts + 1,
            ..after_unpark(table, key, least(n, held(table, key)))[key]
        }),
{
    if table.contains_key(key) {
        lemma_no_more_releases_than_threads(table[key]);
    }
}

/// After some threads have been unparked, an unpark of all counts exactly the others, and
/// after that a further unpark counts nobody and changes nothing.
pub proof fn law_each_thread_is_unparked_once(table: Table, key: usize, n: nat, m: nat)
    requires
        well_formed(table),
    ensures
        ({
            let first = least(n, held(table, key));
            let between = after_unpark(table, key, first);
            let done = after_unpark_all(between, key);
            &&& first + held(between, key) == held(table, key)
            &&& held(done, key) == 0
            &&& after_unpark(done, key, least(m, held(done, key))) == done
        }),
{
    let first = least(n, held(table, key));
    let between = after_unpark(table, key, first);
    let done = after_unpark_all(between, key);
    if table.contains_key(key) {
        lemma_no_more_releases_than_threads(table[key]);
        assert(after_unpark(done, key, 0)[key].releases =~= done[key].releases);
    }
    assert(after_unpark(done, key, 0) =~= done);
}

/// A thread that parks and whose time is up before an unpark leaves the table as it found it:
/// the same threads, the same releases and the same notifications. Only its number is not
/// given again while the spot lasts.
pub proof fn law_timeout_undoes_park(
    table: Table,
    key: usize,
    fresh: Arc<Condvar>,
    timeout: Option<u128>,
    event: ParkEvent,
)
    requires
        well_formed(table),
        has_room(table, key),
        event.expired(timeout),
    ensures
        ({
            let entered = after_enter(table, key, fresh);
            let ticket = next_ticket(table, key);
            let action = park_action(entered, key, ticket, timeout, event);
            let after = after_action(entered, key, ticket, action);
            &&& action == (ParkAction::Return { result: ParkResult::TimedOut })
            &&& after.remove(key) == table.remove(key)
            &&& after.contains_key(key) == table.contains_key(key)
            &&& table.contains_key(key) ==> after[key] == (SpotView {
                next: entered[key].next,
                ..table[key]
            })
        }),
{
    let entered = after_enter(table, key, fresh);
    let ticket = next_ticket(table, key);
    let after = after_leave(entered, key, ticket);
    assert(table.contains_key(key) ==> table[key].wf());
    lemma_missed_is(entered[key].releases, ticket, entered[key].releases.len());
    if table.contains_key(key) {
        assert(!table[key].parked.contains(ticket));
        assert(after[key].parked =~= table[key].parked);
    }
    assert(after.remove(key) =~= table.remove(key));
}

/// A thread that parks, is unparked and wakes up in time returns as unparked, and leaves the
/// table as it found it: the same threads and the same releases. What remains is the
/// notification, and that its number is not given again while the spot lasts.
pub proof fn law_unpark_undoes_park(
    table: Table,
    key: usize,
    fresh: Arc<Condvar>,
    timeout: Option<u128>,
)
    requires
        well_formed(table),
        has_room(table, key),
    ensures
        ({
            let entered = after_enter(table, key, fresh);
            let ticket = next_ticket(table, key);
            let count = least(1, held(entered, key));
            let freed = after_unpark(entered, key, count);
            let woken = ParkEvent::Woken { timed_out: false };
            let action = park_action(freed, key, ticket, timeout, woken);
            let after = after_action(freed, key, ticket, action);
            &&& count == 1
            &&& action == (ParkAction::Return { result: ParkResult::Unparked })
            &&& after.remove(key) == table.remove(key)
            &&& after.contains_key(key) == table.contains_key(key)
            &&& table.contains_key(key) ==> after[key] == (SpotView {
                next: entered[key].next,
                singles: table[key].singles + 1,
                ..table[key]
            })
        }),
{
    let entered = after_enter(table, key, fresh);
    let ticket = next_ticket(table, key);
    assert(table.contains_key(key) ==> table[key].wf());
    if table.contains_key(key) {
        lemma_no_more_releases_than_threads(table[key]);
        assert(!table[key].parked.contains(ticket));
    }
    let freed = after_unpark(entered, key, 1);
    let first = entered[key].releases.len();
    lemma_missed_is(freed[key].releases, ticket, first);
    let after = after_leave(freed, key, ticket);
    if table.contains_key(key) {
        assert(after[key].parked =~= table[key].parked);
        assert(after[key].releases =~= table[key].releases);
    }
    assert(after.remove(key) =~= table.remove(key));
}

/// A thread that parked with a timeout is never told to wait beyond it, and returns as timed
/// out as soon as it looks at the clock after that.
pub proof fn law_timeout_limits_waiting(
    table: Table,
    key: usize,
    ticket: u64,
    limit: u128,
    elapsed: u128,
)
    ensures
        ({
            let clock = ParkEvent::Clock { elapsed };
            let action = park_action(table, key, ticket, Some(limit), clock);
            if elapsed < limit {
                action matches ParkAction::WaitTimeout { nanos } && 0 < nanos && elapsed + nanos
                    == limit
            } else {
                action == (ParkAction::Return { result: ParkResult::TimedOut })
            }
        }),
{
}

/// A thread that parked without a timeout, and so never waits for a limited time, does not
/// return as timed out.
pub proof fn law_no_timeout_never_times_out(
    table: Table,
    key: usize,
    ticket: u64,
    event: ParkEvent,
)
    requires
        event != (ParkEvent::Woken { timed_out: true }),
    ensures
        park_action(table, key, ticket, None, event) != (ParkAction::Return {
            result: ParkResult::TimedOut,
        }),
        !(park_action(table, key, ticket, None, event) is WaitTimeout),
{
}

/// What is done under one key leaves every other key alone.
pub proof fn law_keys_are_independent(system: System, step: Step, key: usize)
    requires
        system.enabled(step),
        match step {
            Step::Park { key: k, .. } => k != key,
            Step::Turn { thread, .. } => system.waiting[thread].key != key,
            Step::Unpark { key: k, .. } => k != key,
            Step::UnparkAll { key: k } => k != key,
        },
    ensures
        system.next(step).table.contains_key(key) == system.table.contains_key(key),
        system.next(step).table[key] == system.table[key],
        system.next(step).waiters(key) == system.waiters(key),
{
    assert(system.next(step).waiters(key) =~= system.waiters(key));
}

/// A thread that parked without a timeout and is about to wait is told to wait, however long
/// ago it called `park` and whoever else is parked or released, and nothing changes.
pub proof fn law_without_timeout_a_thread_waits(
    table: Table,
    key: usize,
    ticket: u64,
    elapsed: u128,
)
    ensures
        ({
            let clock = ParkEvent::Clock { elapsed };
            let action = park_action(table, key, ticket, None, clock);
            &&& action == ParkAction::Wait
            &&& after_action(table, key, ticket, action) == table
        }),
{
}

/// A thread whose wait ran out of time, or that finds its time up when it looks at the clock,
/// returns as timed out and is no longer parked, whoever parked before or after it and whether
/// or not there is a release for it. Every other thread stays parked.
pub proof fn law_out_of_time_a_thread_returns(
    table: Table,
    key: usize,
    ticket: u64,
    timeout: Option<u128>,
    event: ParkEvent,
    other: u64,
)
    requires
        well_formed(table),
        table.contains_key(key),
        table[key].parked.contains(ticket),
        match event {
            ParkEvent::Woken { timed_out } => timed_out,
            ParkEvent::Clock { elapsed } => timeout matches Some(limit) && limit <= elapsed,
        },
    ensures
        ({
            let action = park_action(table, key, ticket, timeout, event);
            let after = after_action(table, key, ticket, action);
            &&& action == (ParkAction::Return { result: ParkResult::TimedOut })
            &&& !(after.contains_key(key) && after[key].parked.contains(ticket))
            &&& other != ticket && table[key].parked.contains(other) ==> after.contains_key(key)
                && after[key].parked.contains(other)
        }),
{
    law_a_thread_leaves_alone(table, key, ticket, key, other);
}

/// A thread that wakes up in time returns as unparked exactly if there is a release that was
/// granted after it parked. Otherwise it is sent back to waiting, and nothing changes.
pub proof fn law_woken_threads_need_a_later_release(
    table: Table,
    key: usize,
    ticket: u64,
    timeout: Option<u128>,
)
    requires
        well_formed(table),
        table.contains_key(key),
    ensures
        ({
            let woken = ParkEvent::Woken { timed_out: false };
            let action = park_action(table, key, ticket, timeout, woken);
            let releases = table[key].releases;
            &&& (exists|i: int|
                0 <= i < releases.len() && #[trigger] releases[i] > ticket) ==> action == (
            ParkAction::Return { result: ParkResult::Unparked })
            &&& (forall|i: int|
                0 <= i < releases.len() ==> #[trigger] releases[i] <= ticket) ==> action
                == ParkAction::ReadClock && after_action(table, key, ticket, action) == table
        }),
{
    let releases = table[key].releases;
    assert(table[key].wf());
    lemma_missed_come_first(releases, ticket);
    if exists|i: int| 0 <= i < releases.len() && #[trigger] releases[i] > ticket {
        let i = choose|i: int| 0 <= i < releases.len() && #[trigger] releases[i] > ticket;
        assert(i >= missed(releases, ticket));
    }
    if forall|i: int| 0 <= i < releases.len() ==> #[trigger] releases[i] <= ticket {
        lemma_missed_is(releases, ticket, releases.len());
    }
}

/// A thread that is told to wait, to wait for a while or to look at the clock stays parked, and
/// nothing changes.
pub proof fn law_only_a_return_changes_the_table(
    table: Table,
    key: usize,
    ticket: u64,
    action: ParkAction,
)
    requires
        !(action is Return),
    ensures
        after_action(table, key, ticket, action) == table,
{
}

/// A thread that returns, with whatever result, is no longer parked, and nobody else is
/// affected: under its key the other threads stay parked on the same condition variable, and
/// the spot stays exactly if there are any; nobody is notified; and under another key nothing
/// changes.
pub proof fn law_a_thread_leaves_alone(
    table: Table,
    key: usize,
    ticket: u64,
    any_key: usize,
    other: u64,
)
    requires
        well_formed(table),
        table.contains_key(key),
        table[key].parked.contains(ticket),
    ensures
        forall|result: ParkResult|
            {
                let before = table[key];
                let after = #[trigger] after_action(
                    table,
                    key,
                    ticket,
                    ParkAction::Return { result },
                );
                &&& any_key != key ==> after.contains_key(any_key) == table.contains_key(any_key)
                    && after[any_key] == table[any_key]
                &&& after.contains_key(key) <==> before.parked.len() > 1
                &&& !(after.contains_key(key) && after[key].parked.contains(ticket))
                &&& other != ticket && before.parked.contains(other) ==> after.contains_key(key)
                    && after[key].parked.contains(other)
                &&& after.contains_key(key) ==> {
                    &&& after[key].parked.contains(other) ==> before.parked.contains(other)
                    &&& after[key].parked.len() + 1 == before.parked.len()
                    &&& after[key].cvar == before.cvar
                    &&& after[key].next == before.next
                    &&& after[key].singles == before.singles
                    &&& after[key].broadcasts == before.broadcasts
                }
            },
{
    assert(table[key].wf());
    if other != ticket && table[key].parked.contains(other) {
        let two = Set::<u64>::empty().insert(ticket).insert(other);
        lemma_len_subset(two, table[key].parked);
        assert(two.len() == 2);
    }
}

/// A thread that returns, with whatever result, takes one release with it if there is one that
/// was granted after it parked, and none otherwise. It takes the oldest such release, and
/// leaves the others in their order.
pub proof fn law_a_thread_takes_its_oldest_release(
    table: Table,
    key: usize,
    ticket: u64,
    result: ParkResult,
    i: int,
)
    requires
        well_formed(table),
        table.contains_key(key),
        table[key].parked.contains(ticket),
        table[key].parked.len() > 1,
    ensures
        ({
            let before = table[key].releases;
            let action = ParkAction::Return { result };
            let after = after_action(table, key, ticket, action)[key].releases;
            &&& (0 <= i < before.len() && before[i] > ticket && (i == 0 || before[i - 1] <= ticket))
                ==> after == before.remove(i)
            &&& (forall|j: int| 0 <= j < before.len() ==> #[trigger] before[j] <= ticket) ==> after
                == before
        }),
{
    let before = table[key].releases;
    assert(table[key].wf());
    if 0 <= i < before.len() && before[i] > ticket && (i == 0 || before[i - 1] <= ticket) {
        assert forall|j: int| 0 <= j < i implies #[trigger] before[j] <= ticket by {
            assert(before[j] <= before[i - 1]);
        }
        assert forall|j: int| i <= j < before.len() implies #[trigger] before[j] > ticket by {
            assert(before[i] <= before[j]);
        }
        lemma_missed_is(before, ticket, i as nat);
    }
    if forall|j: int| 0 <= j < before.len() ==> #[trigger] before[j] <= ticket {
        lemma_missed_is(before, ticket, before.len());
    }
}

/// A thread that parks joins the threads that are parked under its key. It gets a number above
/// theirs, and no release so far was granted after it. The threads that were parked there, the
/// releases and the notifications stay, and so does the condition variable; only the first
/// thread brings its own. One number is used up. Under another key nothing changes.
pub proof fn law_park_adds_one_thread(
    table: Table,
    key: usize,
    fresh: Arc<Condvar>,
    any_key: usize,
    other: u64,
)
    requires
        well_formed(table),
        has_room(table, key),
    ensures
        ({
            let ticket = next_ticket(table, key);
            let after = after_enter(table, key, fresh);
            &&& any_key != key ==> after.contains_key(any_key) == table.contains_key(any_key)
                && after[any_key] == table[any_key]
            &&& after.contains_key(key)
            &&& after[key].parked.contains(ticket)
            &&& after[key].next == ticket + 1
            &&& forall|i: int|
                0 <= i < after[key].releases.len() ==> #[trigger] after[key].releases[i] <= ticket
            &&& if table.contains_key(key) {
                &&& !table[key].parked.contains(ticket)
                &&& table[key].parked.contains(other) ==> other < ticket
                &&& after[key].parked == table[key].parked.insert(ticket)
                &&& after[key].parked.len() == table[key].parked.len() + 1
                &&& after[key].releases == table[key].releases
                &&& after[key].cvar == table[key].cvar
                &&& after[key].singles == table[key].singles
                &&& after[key].broadcasts == table[key].broadcasts
            } else {
                &&& after[key].parked == set![ticket]
                &&& after[key].parked.len() == 1
                &&& after[key].releases.len() == 0
                &&& after[key].cvar == fresh
                &&& after[key].singles == 0
                &&& after[key].broadcasts == 0
            }
        }),
{
    assert(table.contains_key(key) ==> table[key].wf());
}

/// There is room for one more thread under a key exactly if nobody is parked there, or both
/// the threads can be counted and a number is left.
pub proof fn law_room_is_limited_by_the_counters(table: Table, key: usize)
    ensures
        !table.contains_key(key) ==> has_room(table, key),
        table.contains_key(key) ==> (has_room(table, key) <==> table[key].parked.len() + 1
            <= usize::MAX && table[key].next + 1 <= u64::MAX),
{
}

/// An unpark counts no more threads than it is asked for, and no more than are parked and not
/// released yet; it counts as many as it can. An unpark of all counts all of the latter.
pub proof fn law_unparks_count_as_many_as_they_can(table: Table, key: usize, n: nat)
    requires
        well_formed(table),
    ensures
        !table.contains_key(key) ==> least(n, held(table, key)) == 0 && held(table, key) == 0,
        table.contains_key(key) ==> {
            let count = least(n, held(table, key));
            let spot = table[key];
            &&& count <= n
            &&& spot.releases.len() + count <= spot.parked.len()
            &&& count == n || spot.releases.len() + count == spot.parked.len()
            &&& spot.releases.len() + held(table, key) == spot.parked.len()
        },
{
    if table.contains_key(key) {
        lemma_no_more_releases_than_threads(table[key]);
    }
}

/// An unpark that returns `count` makes exactly `count` single notifications on the condition
/// variable of the key, and grants as many releases, after those that there are. Each of them
/// can be used by every thread that is parked now, and by no thread that parks later. Nobody
/// parks or leaves, and under another key nothing changes.
pub proof fn law_unpark_notifies_as_many_as_it_counts(
    table: Table,
    key: usize,
    count: nat,
    any_key: usize,
    i: int,
    ticket: u64,
)
    requires
        well_formed(table),
    ensures
        ({
            let after = after_unpark(table, key, count);
            &&& any_key != key || !table.contains_key(key) ==> after.contains_key(any_key)
                == table.contains_key(any_key) && after[any_key] == table[any_key]
            &&& table.contains_key(key) ==> {
                let spot = table[key];
                &&& after.contains_key(key)
                &&& after[key].singles == spot.singles + count
                &&& after[key].broadcasts == spot.broadcasts
                &&& after[key].cvar == spot.cvar
                &&& after[key].next == spot.next
                &&& after[key].parked == spot.parked
                &&& after[key].releases.len() == spot.releases.len() + count
                &&& 0 <= i < spot.releases.len() ==> after[key].releases[i] == spot.releases[i]
                &&& spot.releases.len() <= i < after[key].releases.len() ==> {
                    &&& spot.parked.contains(ticket) ==> ticket < after[key].releases[i]
                    &&& ticket >= spot.next ==> after[key].releases[i] <= ticket
                }
            }
        }),
{
    assert(table.contains_key(key) ==> table[key].wf());
}

/// An unpark of all threads makes exactly one notification of all on the condition variable of
/// the key, and no single one. It leaves as many releases as there are threads, the new ones
/// after those that there are; each of these can be used by every thread that is parked now,
/// and by no thread that parks later. Nobody parks or leaves, and under another key nothing
/// changes.
pub proof fn law_unpark_all_notifies_all(
    table: Table,
    key: usize,
    any_key: usize,
    i: int,
    ticket: u64,
)
    requires
        well_formed(table),
    ensures
        ({
            let after = after_unpark_all(table, key);
            &&& any_key != key || !table.contains_key(key) ==> after.contains_key(any_key)
                == table.contains_key(any_key) && after[any_key] == table[any_key]
            &&& table.contains_key(key) ==> {
                let spot = table[key];
                &&& after.contains_key(key)
                &&& after[key].broadcasts == spot.broadcasts + 1
                &&& after[key].singles == spot.singles
                &&& after[key].cvar == spot.cvar
                &&& after[key].next == spot.next
                &&& after[key].parked == spot.parked
                &&& after[key].releases.len() == spot.parked.len()
                &&& 0 <= i < spot.releases.len() ==> after[key].releases[i] == spot.releases[i]
                &&& spot.releases.len() <= i < after[key].releases.len() ==> {
                    &&& spot.parked.contains(ticket) ==> ticket < after[key].releases[i]
                    &&& ticket >= spot.next ==> after[key].releases[i] <= ticket
                }
            }
        }),
{
    if table.contains_key(key) {
        assert(table[key].wf());
        lemma_no_more_releases_than_threads(table[key]);
    }
}

/// Whenever an unpark counts threads, it makes as many notifications on the condition variable
/// that each thread parked under the key waits on, also if there is only one such thread. An
/// unpark of all makes one notification of all on it.
pub proof fn law_unparks_notify_where_threads_wait(
    system: System,
    key: usize,
    n: nat,
    thread: int,
)
    requires
        system.consistent(),
        system.waiting.contains_key(thread),
        system.waiting[thread].key == key,
    ensures
        ({
            let before = system.table[key];
            let some = system.next(Step::Unpark { key, n }).table[key];
            let all = system.next(Step::UnparkAll { key }).table[key];
            let unreleased = before.parked.len() - before.releases.len();
            &&& before.cvar == system.waiting[thread].cvar
            &&& some.cvar == system.waiting[thread].cvar
            &&& all.cvar == system.waiting[thread].cvar
            &&& some.singles - before.singles == if n <= unreleased {
                n as int
            } else {
                unreleased
            }
            &&& some.broadcasts == before.broadcasts
            &&& all.broadcasts == before.broadcasts + 1
            &&& all.singles == before.singles
        }),
{
    lemma_no_more_releases_than_threads(system.table[key]);
}

} // verus!
