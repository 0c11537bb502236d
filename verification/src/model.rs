//! The parking table as a mathematical object, and what each operation makes of it.
//!
//! The threads that park under one key are numbered as they arrive. An unpark grants releases,
//! and a release is for a thread that was parked when it was granted: it carries the number of
//! the next thread to arrive, and only threads with smaller numbers can use it.
use crate::step::{ParkAction, ParkEvent, ParkResult};
use std::sync::{Arc, Condvar};
use vstd::prelude::*;
use vstd::set_lib::*;

verus! {

/// The threads that are parked under one key.
pub struct SpotView {
    /// Their numbers.
    pub parked: Set<u64>,
    /// The releases that no thread has used up, in the order in which they were granted.
    pub releases: Seq<u64>,
    /// The number of the next thread.
    pub next: u64,
    /// The condition variable they wait on.
    pub cvar: Arc<Condvar>,
    /// How many single notifications were made on it.
    pub singles: nat,
    /// How many notifications of all threads were made on it.
    pub broadcasts: nat,
}

/// The spots, by key. A key under which no thread is parked has no spot.
pub type Table = Map<usize, SpotView>;

/// Those of the threads that have a number below `cut`.
pub open spec fn earlier(threads: Set<u64>, cut: u64) -> Set<u64> {
    threads.filter(|ticket: u64| ticket < cut)
}

/// The number of releases that were granted before the thread with the number `ticket`
/// arrived.
pub open spec fn missed(releases: Seq<u64>, ticket: u64) -> nat
    decreases releases.len(),
{
    if releases.len() == 0 {
        0
    } else if releases.last() <= ticket {
        missed(releases.drop_last(), ticket) + 1
    } else {
        missed(releases.drop_last(), ticket)
    }
}

/// Releases are in the order in which they were granted.
pub open spec fn in_order(releases: Seq<u64>) -> bool {
    forall|i: int, j: int| 0 <= i <= j < releases.len() ==> releases[i] <= releases[j]
}

/// There is one of the threads for each release: at least `i + 1` of them had arrived when
/// release `i` was granted.
pub open spec fn covered(releases: Seq<u64>, threads: Set<u64>) -> bool {
    forall|i: int|
        0 <= i < releases.len() ==> i < earlier(threads, #[trigger] releases[i]).len()
}

impl SpotView {
    /// The spot is not empty, its numbers are those of threads that have arrived, and there is
    /// a thread for each release.
    pub open spec fn wf(self) -> bool {
        &&& self.parked.finite()
        &&& self.parked.len() >= 1
        &&& forall|ticket: u64| #[trigger] self.parked.contains(ticket) ==> ticket < self.next
        &&& forall|i: int| 0 <= i < self.releases.len() ==> #[trigger] self.releases[i] <= self.next
        &&& in_order(self.releases)
        &&& covered(self.releases, self.parked)
    }

    /// Whether there is a release that the thread with the number `ticket` can use.
    pub open spec fn can_use(self, ticket: u64) -> bool {
        missed(self.releases, ticket) < self.releases.len()
    }

    /// One more thread parks.
    pub open spec fn enter(self) -> SpotView {
        SpotView {
            parked: self.parked.insert(self.next),
            next: (self.next + 1) as u64,
            ..self
        }
    }

    /// The thread with the number `ticket` leaves, and uses up the oldest release that it can
    /// use, if there is one.
    pub open spec fn leave(self, ticket: u64) -> SpotView {
        SpotView {
            parked: self.parked.remove(ticket),
            releases: if self.can_use(ticket) {
                self.releases.remove(missed(self.releases, ticket) as int)
            } else {
                self.releases
            },
            ..self
        }
    }

    /// `count` releases are granted to the threads that are parked now.
    pub open spec fn grant(self, count: nat) -> SpotView {
        SpotView { releases: self.releases + Seq::new(count, |i: int| self.next), ..self }
    }
}

/// Every spot is well-formed.
pub open spec fn well_formed(table: Table) -> bool {
    forall|key: usize| #[trigger] table.contains_key(key) ==> table[key].wf()
}

/// The number of threads parked under `key`.
pub open spec fn parked(table: Table, key: usize) -> nat {
    if table.contains_key(key) {
        table[key].parked.len()
    } else {
        0
    }
}

/// The number of releases that the threads parked under `key` have not used up.
pub open spec fn released(table: Table, key: usize) -> nat {
    if table.contains_key(key) {
        table[key].releases.len()
    } else {
        0
    }
}

/// The number of threads parked under `key` for which there is no release.
pub open spec fn held(table: Table, key: usize) -> nat {
    (parked(table, key) - released(table, key)) as nat
}

/// Whether the thread with the number `ticket` is parked under `key`.
pub open spec fn is_parked(table: Table, key: usize, ticket: u64) -> bool {
    table.contains_key(key) && table[key].parked.contains(ticket)
}

/// Whether one more thread can be counted, and numbered, under `key`.
pub open spec fn has_room(table: Table, key: usize) -> bool {
    table.contains_key(key) ==> table[key].parked.len() < usize::MAX && table[key].next < u64::MAX
}

/// The number that a thread gets if it parks under `key`.
pub open spec fn next_ticket(table: Table, key: usize) -> u64 {
    if table.contains_key(key) {
        table[key].next
    } else {
        0
    }
}

/// The smaller of two counts.
pub open spec fn least(a: nat, b: nat) -> nat {
    if a <= b {
        a
    } else {
        b
    }
}

/// One more thread parks under `key`. If it is the first to do so, it brings the condition
/// variable `fresh`, on which nobody was notified yet.
pub open spec fn after_enter(table: Table, key: usize, fresh: Arc<Condvar>) -> Table {
    if table.contains_key(key) {
        table.insert(key, table[key].enter())
    } else {
        table.insert(
            key,
            SpotView {
                parked: set![0],
                releases: Seq::empty(),
                next: 1,
                cvar: fresh,
                singles: 0,
                broadcasts: 0,
            },
        )
    }
}

/// The thread with the number `ticket`, which is parked under `key`, leaves. The last thread
/// takes the spot away with it.
pub open spec fn after_leave(table: Table, key: usize, ticket: u64) -> Table {
    if table[key].parked.len() <= 1 {
        table.remove(key)
    } else {
        table.insert(key, table[key].leave(ticket))
    }
}

/// `count` of the threads parked under `key` are unparked, and as many single notifications
/// are made.
pub open spec fn after_unpark(table: Table, key: usize, count: nat) -> Table {
    if table.contains_key(key) {
        let spot = table[key].grant(count);
        table.insert(key, SpotView { singles: spot.singles + count, ..spot })
    } else {
        table
    }
}

/// All threads parked under `key` are unparked, and a notification of all is made.
pub open spec fn after_unpark_all(table: Table, key: usize) -> Table {
    if table.contains_key(key) {
        let spot = table[key].grant(held(table, key));
        table.insert(key, SpotView { broadcasts: spot.broadcasts + 1, ..spot })
    } else {
        table
    }
}

/// What the thread with the number `ticket`, which is parked under `key` with `timeout`, is
/// told in answer to `event`.
///
/// A thread whose time is up leaves. A thread that was woken leaves if there is a release that
/// it can use, and goes back to waiting otherwise.
pub open spec fn park_action(
    table: Table,
    key: usize,
    ticket: u64,
    timeout: Option<u128>,
    event: ParkEvent,
) -> ParkAction {
    if event.expired(timeout) {
        ParkAction::Return { result: ParkResult::TimedOut }
    } else {
        match event {
            ParkEvent::Clock { elapsed } => match timeout {
                Some(limit) => ParkAction::WaitTimeout { nanos: (limit - elapsed) as u128 },
                None => ParkAction::Wait,
            },
            ParkEvent::Woken { .. } => if table[key].can_use(ticket) {
                ParkAction::Return { result: ParkResult::Unparked }
            } else {
                ParkAction::ReadClock
            },
        }
    }
}

/// The table after the thread with the number `ticket`, which is parked under `key`, has been
/// told to do `action`.
pub open spec fn after_action(
    table: Table,
    key: usize,
    ticket: u64,
    action: ParkAction,
) -> Table {
    if action is Return {
        after_leave(table, key, ticket)
    } else {
        table
    }
}

/// The releases that a thread has missed are the first ones.
pub proof fn lemma_missed_come_first(releases: Seq<u64>, ticket: u64)
    requires
        in_order(releases),
    ensures
        missed(releases, ticket) <= releases.len(),
        forall|i: int| 0 <= i < missed(releases, ticket) ==> #[trigger] releases[i] <= ticket,
        forall|i: int|
            missed(releases, ticket) <= i < releases.len() ==> #[trigger] releases[i] > ticket,
    decreases releases.len(),
{
    if releases.len() > 0 {
        let rest = releases.drop_last();
        lemma_missed_come_first(rest, ticket);
        assert(forall|i: int| 0 <= i < rest.len() ==> rest[i] == releases[i]);
        if releases.last() <= ticket {
            assert forall|i: int| 0 <= i < rest.len() implies #[trigger] releases[i] <= ticket by {
                assert(releases[i] <= releases[releases.len() - 1]);
            }
            if missed(rest, ticket) < rest.len() {
                assert(rest[missed(rest, ticket) as int] > ticket);
            }
        }
    }
}

/// A number that parts the releases into those at most `ticket` and those above it is the
/// number of those that the thread has missed.
pub proof fn lemma_missed_is(releases: Seq<u64>, ticket: u64, count: nat)
    requires
        in_order(releases),
        count <= releases.len(),
        forall|i: int| 0 <= i < count ==> #[trigger] releases[i] <= ticket,
        forall|i: int| count <= i < releases.len() ==> #[trigger] releases[i] > ticket,
    ensures
        missed(releases, ticket) == count,
{
    lemma_missed_come_first(releases, ticket);
    if missed(releases, ticket) < count {
        assert(releases[missed(releases, ticket) as int] <= ticket);
    }
    if missed(releases, ticket) > count {
        assert(releases[count as int] <= ticket);
    }
}

/// A thread that parks keeps the spot well-formed.
pub proof fn lemma_enter_keeps_wf(spot: SpotView)
    requires
        spot.wf(),
        spot.next < u64::MAX,
    ensures
        spot.enter().wf(),
{
    let after = spot.enter();
    assert forall|i: int| 0 <= i < after.releases.len() implies i < earlier(
        after.parked,
        #[trigger] after.releases[i],
    ).len() by {
        assert(earlier(after.parked, after.releases[i]) =~= earlier(
            spot.parked,
            spot.releases[i],
        ));
    }
}

/// Unparking some of the threads that are held keeps the spot well-formed.
pub proof fn lemma_grant_keeps_wf(spot: SpotView, count: nat)
    requires
        spot.wf(),
        spot.releases.len() + count <= spot.parked.len(),
    ensures
        spot.grant(count).wf(),
{
    let after = spot.grant(count);
    assert forall|i: int| 0 <= i < after.releases.len() implies i < earlier(
        after.parked,
        #[trigger] after.releases[i],
    ).len() by {
        if i < spot.releases.len() {
            assert(after.releases[i] == spot.releases[i]);
        } else {
            assert(earlier(after.parked, spot.next) =~= spot.parked);
        }
    }
}

/// If there is a thread for each release, and one thread goes away with the oldest release
/// that it can use, there is still a thread for each release.
pub proof fn lemma_leave_keeps_cover(spot: SpotView, threads: Set<u64>, ticket: u64)
    requires
        in_order(spot.releases),
        covered(spot.releases, threads),
        threads.finite(),
        threads.contains(ticket),
    ensures
        in_order(spot.leave(ticket).releases),
        covered(spot.leave(ticket).releases, threads.remove(ticket)),
{
    let releases = spot.releases;
    let first = missed(releases, ticket) as int;
    let after = spot.leave(ticket).releases;
    lemma_missed_come_first(releases, ticket);
    assert forall|i: int| 0 <= i < after.len() implies i < earlier(
        threads.remove(ticket),
        #[trigger] after[i],
    ).len() by {
        if i < first {
            assert(after[i] == releases[i]);
            assert(earlier(threads.remove(ticket), releases[i]) =~= earlier(threads, releases[i]));
        } else {
            assert(after[i] == releases[i + 1]);
            assert(earlier(threads, releases[i + 1]).contains(ticket));
            assert(earlier(threads.remove(ticket), releases[i + 1]) =~= earlier(
                threads,
                releases[i + 1],
            ).remove(ticket));
        }
    }
}

/// A thread that leaves others behind keeps the spot well-formed.
pub proof fn lemma_leave_keeps_wf(spot: SpotView, ticket: u64)
    requires
        spot.wf(),
        spot.parked.contains(ticket),
        spot.parked.len() > 1,
    ensures
        spot.leave(ticket).wf(),
{
    lemma_leave_keeps_cover(spot, spot.parked, ticket);
    lemma_missed_come_first(spot.releases, ticket);
    let after = spot.leave(ticket);
    assert forall|i: int| 0 <= i < after.releases.len() implies #[trigger] after.releases[i]
        <= after.next by {
        let first = missed(spot.releases, ticket) as int;
        if spot.can_use(ticket) && i >= first {
            assert(after.releases[i] == spot.releases[i + 1]);
        } else {
            assert(after.releases[i] == spot.releases[i]);
        }
    }
}

/// There are at most as many releases as threads.
pub proof fn lemma_no_more_releases_than_threads(spot: SpotView)
    requires
        spot.wf(),
    ensures
        spot.releases.len() <= spot.parked.len(),
{
    if spot.releases.len() > 0 {
        let last = spot.releases.len() - 1;
        assert(last < earlier(spot.parked, spot.releases[last]).len());
        lemma_len_subset(earlier(spot.parked, spot.releases[last]), spot.parked);
    }
}

} // verus!
