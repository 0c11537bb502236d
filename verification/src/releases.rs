//! For whom there are releases, and for how long.
use crate::model::{
    covered, earlier, in_order, lemma_grant_keeps_wf, lemma_leave_keeps_wf, lemma_missed_come_first,
    lemma_missed_is, missed, SpotView,
};
use vstd::prelude::*;
use vstd::set_lib::*;

verus! {

/// There is a release for each thread with a number below `cut`, whichever of the threads
/// leave.
pub open spec fn settled(spot: SpotView, cut: u64) -> bool {
    &&& cut <= spot.next
    &&& earlier(spot.parked, cut).len() <= missed(spot.releases, cut)
}

/// There are `count` releases that every thread with a number below `cut` can use, and no
/// other.
pub open spec fn reserved(spot: SpotView, cut: u64, count: int) -> bool {
    &&& cut <= spot.next
    &&& count <= missed(spot.releases, cut)
    &&& forall|i: int|
        missed(spot.releases, cut) - count <= i < missed(spot.releases, cut)
            ==> #[trigger] spot.releases[i] == cut
}

/// If there is a thread for each release, those that a number has missed are no more than the
/// threads below it.
pub proof fn lemma_missed_are_for_earlier_threads(
    releases: Seq<u64>,
    threads: Set<u64>,
    ticket: u64,
)
    requires
        in_order(releases),
        covered(releases, threads),
        threads.finite(),
    ensures
        missed(releases, ticket) <= earlier(threads, ticket).len(),
{
    let count = missed(releases, ticket);
    lemma_missed_come_first(releases, ticket);
    if count > 0 {
        let cut = releases[count - 1];
        assert(count - 1 < earlier(threads, cut).len());
        lemma_len_subset(earlier(threads, cut), earlier(threads, ticket));
    }
}

/// A thread has fewer threads before it than there are below any larger number.
proof fn lemma_fewer_before(threads: Set<u64>, ticket: u64, cut: u64)
    requires
        threads.finite(),
        threads.contains(ticket),
        ticket < cut,
    ensures
        earlier(threads, ticket).len() < earlier(threads, cut).len(),
{
    let before = earlier(threads, ticket);
    assert(!before.contains(ticket));
    lemma_len_subset(before.insert(ticket), earlier(threads, cut));
}

/// If there is a release for each of the threads, each of them can use one.
pub proof fn lemma_one_for_each(spot: SpotView, threads: Set<u64>, ticket: u64)
    requires
        in_order(spot.releases),
        covered(spot.releases, threads),
        threads.finite(),
        threads.contains(ticket),
        threads.len() <= spot.releases.len(),
    ensures
        spot.can_use(ticket),
{
    let before = earlier(threads, ticket);
    lemma_missed_are_for_earlier_threads(spot.releases, threads, ticket);
    assert(!before.contains(ticket));
    lemma_len_subset(before.insert(ticket), threads);
}

/// A thread for which there is a release of its own can use one, of those that it shares with
/// threads below `cut`.
pub proof fn lemma_settled_threads_can_use(spot: SpotView, cut: u64, ticket: u64)
    requires
        spot.wf(),
        settled(spot, cut),
        spot.parked.contains(ticket),
        ticket < cut,
    ensures
        spot.can_use(ticket),
        missed(spot.releases, ticket) < missed(spot.releases, cut),
{
    lemma_missed_are_for_earlier_threads(spot.releases, spot.parked, ticket);
    lemma_fewer_before(spot.parked, ticket, cut);
    lemma_missed_come_first(spot.releases, cut);
}

/// A thread for which releases are reserved can use one.
pub proof fn lemma_reserved_can_be_used(spot: SpotView, cut: u64, count: int, ticket: u64)
    requires
        spot.wf(),
        reserved(spot, cut, count),
        count > 0,
        ticket < cut,
    ensures
        spot.can_use(ticket),
{
    lemma_missed_come_first(spot.releases, ticket);
    lemma_missed_come_first(spot.releases, cut);
    assert(spot.releases[missed(spot.releases, cut) - 1] == cut);
}

/// What a thread that leaves does to the number of releases that a number below `cut` or at it
/// has missed.
proof fn lemma_missed_after_leave(spot: SpotView, cut: u64, ticket: u64)
    requires
        spot.wf(),
        spot.parked.contains(ticket),
        spot.parked.len() > 1,
    ensures
        missed(spot.leave(ticket).releases, cut) == if missed(spot.releases, ticket) < missed(
            spot.releases,
            cut,
        ) {
            missed(spot.releases, cut) - 1
        } else {
            missed(spot.releases, cut) as int
        },
{
    let first = missed(spot.releases, ticket);
    let limit = missed(spot.releases, cut);
    let after = spot.leave(ticket).releases;
    lemma_leave_keeps_wf(spot, ticket);
    lemma_missed_come_first(spot.releases, ticket);
    lemma_missed_come_first(spot.releases, cut);
    let count = if first < limit {
        (limit - 1) as nat
    } else {
        limit
    };
    if spot.can_use(ticket) {
        assert(forall|i: int| 0 <= i < first ==> after[i] == spot.releases[i]);
        assert(forall|i: int| first <= i < after.len() ==> after[i] == spot.releases[i + 1]);
    }
    lemma_missed_is(after, cut, count);
}

/// Threads that leave take away at most the release that there is for them.
pub proof fn lemma_settled_after_leave(spot: SpotView, cut: u64, ticket: u64)
    requires
        spot.wf(),
        spot.parked.contains(ticket),
        spot.parked.len() > 1,
        settled(spot, cut),
    ensures
        settled(spot.leave(ticket), cut),
{
    lemma_missed_after_leave(spot, cut, ticket);
    lemma_missed_come_first(spot.releases, ticket);
    lemma_missed_come_first(spot.releases, cut);
    let after = spot.leave(ticket);
    if ticket < cut {
        lemma_settled_threads_can_use(spot, cut, ticket);
        assert(earlier(spot.parked, cut).contains(ticket));
        assert(earlier(after.parked, cut) =~= earlier(spot.parked, cut).remove(ticket));
    } else {
        if missed(spot.releases, ticket) < missed(spot.releases, cut) {
            assert(spot.releases[missed(spot.releases, ticket) as int] > ticket);
        }
        assert(earlier(after.parked, cut) =~= earlier(spot.parked, cut));
    }
}

/// A thread below `cut` takes away at most one of the releases that are reserved, and any
/// other thread none.
pub proof fn lemma_reserved_after_leave(spot: SpotView, cut: u64, count: int, ticket: u64)
    requires
        spot.wf(),
        spot.parked.contains(ticket),
        spot.parked.len() > 1,
        reserved(spot, cut, count),
        count > 0,
    ensures
        reserved(
            spot.leave(ticket),
            cut,
            if ticket < cut {
                count - 1
            } else {
                count
            },
        ),
{
    lemma_missed_after_leave(spot, cut, ticket);
    lemma_missed_come_first(spot.releases, ticket);
    lemma_missed_come_first(spot.releases, cut);
    let first = missed(spot.releases, ticket);
    let limit = missed(spot.releases, cut);
    let after = spot.leave(ticket);
    let left = if ticket < cut {
        count - 1
    } else {
        count
    };
    if spot.can_use(ticket) {
        assert(forall|i: int| 0 <= i < first ==> after.releases[i] == spot.releases[i]);
        assert(forall|i: int|
            first <= i < after.releases.len() ==> after.releases[i] == spot.releases[i + 1]);
    }
    if ticket < cut {
        lemma_reserved_can_be_used(spot, cut, count, ticket);
        assert(spot.releases[limit - 1] == cut);
        assert(first < limit);
    } else if first < limit {
        assert(spot.releases[first as int] > ticket);
    }
    assert forall|i: int|
        missed(after.releases, cut) - left <= i < missed(
            after.releases,
            cut,
        ) implies #[trigger] after.releases[i] == cut by {
        if i < first {
            assert(after.releases[i] == spot.releases[i]);
        } else {
            assert(after.releases[i] == spot.releases[i + 1]);
        }
    }
}

/// What further releases do to the number of those that a number has missed.
proof fn lemma_missed_after_grant(spot: SpotView, cut: u64, count: nat)
    requires
        spot.wf(),
        cut <= spot.next,
        spot.releases.len() + count <= spot.parked.len(),
    ensures
        missed(spot.grant(count).releases, cut) == if cut < spot.next {
            missed(spot.releases, cut)
        } else {
            spot.releases.len() + count
        },
{
    let after = spot.grant(count).releases;
    lemma_grant_keeps_wf(spot, count);
    lemma_missed_come_first(spot.releases, cut);
    if cut < spot.next {
        lemma_missed_is(after, cut, missed(spot.releases, cut));
    } else {
        lemma_missed_is(after, cut, after.len());
    }
}

/// Further releases leave a release for each thread that had one.
pub proof fn lemma_settled_after_grant(spot: SpotView, cut: u64, count: nat)
    requires
        spot.wf(),
        spot.releases.len() + count <= spot.parked.len(),
        settled(spot, cut),
    ensures
        settled(spot.grant(count), cut),
{
    lemma_missed_after_grant(spot, cut, count);
    lemma_missed_come_first(spot.releases, cut);
}

/// Further releases leave those that are reserved.
pub proof fn lemma_reserved_after_grant(spot: SpotView, cut: u64, kept: int, count: nat)
    requires
        spot.wf(),
        spot.releases.len() + count <= spot.parked.len(),
        reserved(spot, cut, kept),
    ensures
        reserved(spot.grant(count), cut, kept),
{
    lemma_missed_after_grant(spot, cut, count);
    lemma_missed_come_first(spot.releases, cut);
    let after = spot.grant(count).releases;
    if cut == spot.next {
        lemma_missed_is(spot.releases, cut, spot.releases.len());
        assert forall|i: int| after.len() - kept <= i < after.len() implies #[trigger] after[i]
            == cut by {
            if i < spot.releases.len() {
                assert(after[i] == spot.releases[i]);
            }
        }
    } else {
        assert(forall|i: int| 0 <= i < spot.releases.len() ==> after[i] == spot.releases[i]);
    }
}

/// The releases that an unpark grants are reserved for the threads that are parked then. If
/// they are enough for all, there is one for each.
pub proof fn lemma_grant_reserves(spot: SpotView, count: nat)
    requires
        spot.wf(),
        spot.releases.len() + count <= spot.parked.len(),
    ensures
        reserved(spot.grant(count), spot.next, count as int),
        spot.releases.len() + count == spot.parked.len() ==> settled(
            spot.grant(count),
            spot.next,
        ),
{
    lemma_missed_after_grant(spot, spot.next, count);
    assert(earlier(spot.parked, spot.next) =~= spot.parked);
}

} // verus!
