//! Threads that are notified, and what becomes of them.
//!
//! An unpark of some threads makes as many notifications, and cannot know which threads they
//! reach. A thread that wakes up without a notification, or that runs out of time, can use up
//! the release that another thread was notified for, if both were parked at the unpark. As
//! long as none does, every thread that has been notified finds a release when it wakes up.
use crate::model::{
    covered, earlier, held, least, lemma_leave_keeps_cover, lemma_missed_come_first,
    lemma_no_more_releases_than_threads, parked,
};
use crate::releases::lemma_one_for_each;
use crate::step::{ParkAction, ParkEvent, ParkResult};
use crate::system::{
    law_initial_system_is_consistent, law_steps_keep_consistency, Step, System,
};
use vstd::prelude::*;
use vstd::relations::injective_on;
use vstd::set_lib::*;

verus! {

/// A system, and the threads in it that have been notified and have not returned.
pub struct Alarmed {
    pub system: System,
    pub notified: Set<int>,
}

/// A step of the system, and the threads that are notified in it.
pub struct Move {
    pub step: Step,
    pub reached: Set<int>,
}

impl Alarmed {
    /// Nobody is parked.
    pub open spec fn initial() -> Alarmed {
        Alarmed { system: System::initial(), notified: Set::empty() }
    }

    /// The threads parked under `key` that have been notified.
    pub open spec fn alarmed(self, key: usize) -> Set<int> {
        self.system.waiters(key).intersect(self.notified)
    }

    /// The threads parked under `key` that have not been notified.
    pub open spec fn blocked(self, key: usize) -> Set<int> {
        self.system.waiters(key).difference(self.notified)
    }

    /// The numbers of some threads.
    pub open spec fn tickets(self, threads: Set<int>) -> Set<u64> {
        threads.map(|thread: int| self.system.waiting[thread].ticket)
    }

    /// Whether the move can be made. As many single notifications as an unpark counts threads
    /// reach as many threads that wait, and a notification of all reaches all of them. No
    /// thread uses up a release unless it has been notified.
    pub open spec fn enabled(self, mv: Move) -> bool {
        &&& self.system.enabled(mv.step)
        &&& match mv.step {
            Step::Park { .. } => mv.reached == Set::<int>::empty(),
            Step::Turn { thread, .. } => {
                &&& mv.reached == Set::<int>::empty()
                &&& self.system.used_by(mv.step, self.system.waiting[thread].key) > 0
                    ==> self.notified.contains(thread)
            },
            Step::Unpark { key, n } => {
                &&& mv.reached.subset_of(self.blocked(key))
                &&& mv.reached.len() == least(n, held(self.system.table, key))
            },
            Step::UnparkAll { key } => mv.reached == self.system.waiters(key),
        }
    }

    /// What the move makes of the system and of the threads that have been notified.
    pub open spec fn next(self, mv: Move) -> Alarmed {
        Alarmed {
            system: self.system.next(mv.step),
            notified: self.system.staying_in(mv.step, self.notified.union(mv.reached)),
        }
    }

    /// What a sequence of moves makes of the system.
    pub open spec fn run(self, moves: Seq<Move>) -> Alarmed
        decreases moves.len(),
    {
        if moves.len() == 0 {
            self
        } else {
            self.run(moves.drop_last()).next(moves.last())
        }
    }

    /// Whether a sequence of moves can be made, one after the other.
    pub open spec fn runs(self, moves: Seq<Move>) -> bool
        decreases moves.len(),
    {
        moves.len() > 0 ==> self.runs(moves.drop_last()) && self.run(moves.drop_last()).enabled(
            moves.last(),
        )
    }

    /// The system is consistent, and under each key there is a release for each thread that
    /// has been notified, and for no other.
    pub open spec fn consistent(self) -> bool {
        &&& self.system.consistent()
        &&& self.notified.subset_of(self.system.waiting.dom())
        &&& forall|key: usize| #[trigger]
            self.system.table.contains_key(key) ==> {
                let releases = self.system.table[key].releases;
                &&& self.alarmed(key).len() == releases.len()
                &&& covered(releases, self.tickets(self.alarmed(key)))
            }
    }
}

/// Threads under one key have as many numbers as they are.
proof fn lemma_tickets(now: Alarmed, threads: Set<int>, key: usize)
    requires
        now.system.consistent(),
        threads.subset_of(now.system.waiters(key)),
    ensures
        threads.finite(),
        now.tickets(threads).finite(),
        now.tickets(threads).len() == threads.len(),
        now.tickets(threads).subset_of(now.system.table[key].parked),
{
    let f = |thread: int| now.system.waiting[thread].ticket;
    lemma_set_subset_finite(now.system.waiters(key), threads);
    assert(injective_on(f, threads)) by {
        assert forall|t: int, u: int|
            threads.contains(t) && threads.contains(u) && #[trigger] f(t) == #[trigger] f(
                u,
            ) implies t == u by {
            assert(now.system.waiting.contains_key(t) && now.system.waiting.contains_key(u));
        }
    }
    lemma_map_size(threads, now.tickets(threads), f);
    assert forall|ticket: u64| now.tickets(threads).contains(ticket) implies now.system.table[
        key
    ].parked.contains(ticket) by {
        let t = choose|t: int| threads.contains(t) && f(t) == ticket;
        assert(now.system.waiting.contains_key(t));
    }
}

/// A thread that has been notified returns as unparked when it wakes up.
pub proof fn law_notified_threads_return_unparked(now: Alarmed, thread: int)
    requires
        now.consistent(),
        now.notified.contains(thread),
    ensures
        now.system.waiting.contains_key(thread),
        now.system.table[now.system.waiting[thread].key].can_use(now.system.waiting[thread].ticket),
        now.system.action(thread, ParkEvent::Woken { timed_out: false }) == (ParkAction::Return {
            result: ParkResult::Unparked,
        }),
{
    let key = now.system.waiting[thread].key;
    let ticket = now.system.waiting[thread].ticket;
    let threads = now.alarmed(key);
    assert(now.system.waiting.contains_key(thread));
    lemma_tickets(now, threads, key);
    assert(threads.contains(thread));
    assert(now.tickets(threads).contains(ticket));
    lemma_one_for_each(now.system.table[key], now.tickets(threads), ticket);
}

/// The threads under a key for which there is no release are as many as those that have not
/// been notified: an unpark finds a thread to notify for each one that it counts.
pub proof fn law_unpark_finds_threads_to_notify(now: Alarmed, key: usize)
    requires
        now.consistent(),
    ensures
        now.blocked(key).len() == held(now.system.table, key),
{
    let waiters = now.system.waiters(key);
    assert(parked(now.system.table, key) == waiters.len());
    lemma_set_subset_finite(waiters, now.blocked(key));
    lemma_set_subset_finite(waiters, now.alarmed(key));
    if now.system.table.contains_key(key) {
        lemma_set_disjoint_lens(now.blocked(key), now.alarmed(key));
        assert(waiters =~= now.blocked(key) + now.alarmed(key));
    } else {
        lemma_len_subset(now.blocked(key), waiters);
    }
}

/// Releases that are granted to all who are parked are covered by threads of which there is
/// one for each release.
proof fn lemma_cover_after_grant(
    now: Alarmed,
    key: usize,
    count: nat,
    before: Set<u64>,
    threads: Set<u64>,
)
    requires
        now.system.consistent(),
        now.system.table.contains_key(key),
        covered(now.system.table[key].releases, before),
        before.subset_of(threads),
        threads.finite(),
        threads.subset_of(now.system.table[key].parked),
        threads.len() == now.system.table[key].releases.len() + count,
    ensures
        covered(now.system.table[key].grant(count).releases, threads),
{
    let spot = now.system.table[key];
    let after = spot.grant(count).releases;
    assert forall|i: int| 0 <= i < after.len() implies i < earlier(
        threads,
        #[trigger] after[i],
    ).len() by {
        if i < spot.releases.len() {
            assert(after[i] == spot.releases[i]);
            lemma_len_subset(earlier(before, after[i]), earlier(threads, after[i]));
        } else {
            assert(earlier(threads, spot.next) =~= threads);
        }
    }
}

/// Every move keeps a release for each thread that has been notified.
pub proof fn law_moves_keep_consistency(now: Alarmed, mv: Move)
    requires
        now.consistent(),
        now.enabled(mv),
    ensures
        now.next(mv).consistent(),
{
    let after = now.next(mv);
    law_steps_keep_consistency(now.system, mv.step);
    assert forall|key: usize| #[trigger] after.system.table.contains_key(key) implies {
        let releases = after.system.table[key].releases;
        &&& after.alarmed(key).len() == releases.len()
        &&& covered(releases, after.tickets(after.alarmed(key)))
    } by {
        lemma_moves_keep_key(now, mv, key);
    }
}

/// Every move keeps a release for each thread under `key` that has been notified.
proof fn lemma_moves_keep_key(now: Alarmed, mv: Move, key: usize)
    requires
        now.consistent(),
        now.enabled(mv),
        now.next(mv).system.consistent(),
        now.next(mv).system.table.contains_key(key),
    ensures
        now.next(mv).alarmed(key).len() == now.next(mv).system.table[key].releases.len(),
        covered(
            now.next(mv).system.table[key].releases,
            now.next(mv).tickets(now.next(mv).alarmed(key)),
        ),
{
    let after = now.next(mv);
    let before = now.alarmed(key);
    let spot = now.system.table[key];
    lemma_tickets(after, after.alarmed(key), key);
    if now.system.table.contains_key(key) {
        lemma_tickets(now, before, key);
        lemma_no_more_releases_than_threads(spot);
    }
    match mv.step {
        Step::Park { thread, key: k, .. } => {
            if now.system.table.contains_key(key) {
                assert(after.alarmed(key) =~= before);
                assert(after.tickets(before) =~= now.tickets(before)) by {
                    lemma_same_tickets(now, after, before);
                }
            } else {
                assert(parked(now.system.table, key) == now.system.waiters(key).len());
                assert(now.system.waiters(key) =~= Set::empty()) by {
                    if exists|t: int| now.system.waiters(key).contains(t) {
                        let t = choose|t: int| now.system.waiters(key).contains(t);
                        assert(now.system.waiting.contains_key(t));
                    }
                }
                assert(after.alarmed(key) =~= Set::empty());
            }
        },
        Step::Turn { thread, event } => {
            let waiter = now.system.waiting[thread];
            let leaves = now.system.action(thread, event) is Return;
            if leaves && waiter.key == key {
                if now.notified.contains(thread) {
                    law_notified_threads_return_unparked(now, thread);
                    assert(before.contains(thread));
                    assert(now.tickets(before).contains(waiter.ticket));
                    lemma_leave_keeps_cover(spot, now.tickets(before), waiter.ticket);
                    lemma_missed_come_first(spot.releases, waiter.ticket);
                    assert(after.alarmed(key) =~= before.remove(thread));
                    assert(after.tickets(after.alarmed(key)) =~= now.tickets(before).remove(
                        waiter.ticket,
                    )) by {
                        lemma_tickets_without(now, before, thread, key);
                        lemma_same_tickets(now, after, before.remove(thread));
                    }
                } else {
                    assert(after.alarmed(key) =~= before);
                    lemma_same_tickets(now, after, before);
                }
            } else {
                assert(after.alarmed(key) =~= before);
                lemma_same_tickets(now, after, before);
            }
        },
        Step::Unpark { key: k, n } => {
            if k == key {
                let count = least(n, held(now.system.table, key));
                assert(after.alarmed(key) =~= before.union(mv.reached));
                lemma_tickets(now, mv.reached, key);
                lemma_set_disjoint_lens(before, mv.reached);
                assert(before.union(mv.reached) =~= before + mv.reached);
                lemma_same_tickets(now, after, before);
                lemma_more_tickets(after, before, after.alarmed(key));
                lemma_cover_after_grant(
                    now,
                    key,
                    count,
                    now.tickets(before),
                    after.tickets(after.alarmed(key)),
                );
            } else {
                assert(after.alarmed(key) =~= before) by {
                    assert forall|t: int| mv.reached.contains(t) implies !now.system.waiters(
                        key,
                    ).contains(t) by {
                        assert(now.blocked(k).contains(t));
                    }
                }
                lemma_same_tickets(now, after, before);
            }
        },
        Step::UnparkAll { key: k } => {
            if k == key {
                assert(parked(now.system.table, key) == now.system.waiters(key).len());
                assert(after.alarmed(key) =~= now.system.waiters(key));
                lemma_same_tickets(now, after, before);
                lemma_more_tickets(after, before, after.alarmed(key));
                lemma_cover_after_grant(
                    now,
                    key,
                    held(now.system.table, key),
                    now.tickets(before),
                    after.tickets(after.alarmed(key)),
                );
            } else {
                assert(after.alarmed(key) =~= before);
                lemma_same_tickets(now, after, before);
            }
        },
    }
}

/// Threads that stay where they are keep their numbers.
proof fn lemma_same_tickets(now: Alarmed, after: Alarmed, threads: Set<int>)
    requires
        forall|thread: int| #[trigger]
            threads.contains(thread) ==> now.system.waiting[thread]
                == after.system.waiting[thread],
    ensures
        now.tickets(threads) == after.tickets(threads),
{
    assert forall|ticket: u64| now.tickets(threads).contains(ticket) implies after.tickets(
        threads,
    ).contains(ticket) by {
        let t = choose|t: int|
            threads.contains(t) && now.system.waiting[t].ticket == ticket;
        assert(threads.contains(t) && after.system.waiting[t].ticket == ticket);
    }
    assert forall|ticket: u64| after.tickets(threads).contains(ticket) implies now.tickets(
        threads,
    ).contains(ticket) by {
        let t = choose|t: int|
            threads.contains(t) && after.system.waiting[t].ticket == ticket;
        assert(threads.contains(t) && now.system.waiting[t].ticket == ticket);
    }
    assert(now.tickets(threads) =~= after.tickets(threads));
}

/// More threads have more numbers.
proof fn lemma_more_tickets(now: Alarmed, some: Set<int>, more: Set<int>)
    requires
        some.subset_of(more),
    ensures
        now.tickets(some).subset_of(now.tickets(more)),
{
    assert forall|ticket: u64| now.tickets(some).contains(ticket) implies now.tickets(
        more,
    ).contains(ticket) by {
        let t = choose|t: int| some.contains(t) && now.system.waiting[t].ticket == ticket;
        assert(more.contains(t) && now.system.waiting[t].ticket == ticket);
    }
}

/// Without one of the threads, its number is missing, and no other.
proof fn lemma_tickets_without(now: Alarmed, threads: Set<int>, thread: int, key: usize)
    requires
        now.system.consistent(),
        threads.subset_of(now.system.waiters(key)),
        threads.contains(thread),
    ensures
        now.tickets(threads.remove(thread)) == now.tickets(threads).remove(
            now.system.waiting[thread].ticket,
        ),
{
    let own = now.system.waiting[thread].ticket;
    assert forall|ticket: u64| now.tickets(threads.remove(thread)).contains(ticket) implies
        now.tickets(threads).remove(own).contains(ticket) by {
        let t = choose|t: int|
            threads.remove(thread).contains(t) && now.system.waiting[t].ticket == ticket;
        assert(threads.contains(t) && now.system.waiting[t].ticket == ticket);
        assert(now.system.waiting.contains_key(t) && now.system.waiting.contains_key(thread));
    }
    assert forall|ticket: u64| now.tickets(threads).remove(own).contains(ticket) implies
        now.tickets(threads.remove(thread)).contains(ticket) by {
        let t = choose|t: int| threads.contains(t) && now.system.waiting[t].ticket == ticket;
        assert(threads.remove(thread).contains(t) && now.system.waiting[t].ticket == ticket);
    }
    assert(now.tickets(threads.remove(thread)) =~= now.tickets(threads).remove(own));
}

/// As long as no thread uses up a release without having been notified, every thread that has
/// been notified returns as unparked when it wakes up.
pub proof fn law_notified_threads_find_releases(moves: Seq<Move>, thread: int)
    requires
        Alarmed::initial().runs(moves),
        Alarmed::initial().run(moves).notified.contains(thread),
    ensures
        Alarmed::initial().run(moves).system.action(
            thread,
            ParkEvent::Woken { timed_out: false },
        ) == (ParkAction::Return { result: ParkResult::Unparked }),
{
    lemma_runs_keep_consistency(moves);
    law_notified_threads_return_unparked(Alarmed::initial().run(moves), thread);
}

/// Every system that moves can lead to is consistent.
proof fn lemma_runs_keep_consistency(moves: Seq<Move>)
    requires
        Alarmed::initial().runs(moves),
    ensures
        Alarmed::initial().run(moves).consistent(),
    decreases moves.len(),
{
    if moves.len() > 0 {
        lemma_runs_keep_consistency(moves.drop_last());
        law_moves_keep_consistency(Alarmed::initial().run(moves.drop_last()), moves.last());
    } else {
        law_initial_system_is_consistent();
    }
}

} // verus!
