//! The parking table: who is parked where, and who may leave.
use crate::condvar::Bell;
use crate::model::{
    after_action, after_enter, after_leave, after_unpark, after_unpark_all, has_room, held,
    is_parked, least, lemma_enter_keeps_wf, lemma_grant_keeps_wf, lemma_leave_keeps_wf,
    lemma_missed_come_first, lemma_missed_is, lemma_no_more_releases_than_threads, missed,
    next_ticket, park_action, parked, well_formed, SpotView, Table,
};
use crate::step::{ParkAction, ParkEvent, ParkResult};
use std::collections::{BTreeMap, BTreeSet};
use std::sync::{Arc, Condvar};
use vstd::prelude::*;

verus! {

/// The threads that are parked under one key: their numbers, the releases that they have not
/// used up, the number of the next thread, and what they wait on.
pub struct Spot {
    parked: BTreeSet<u64>,
    releases: Vec<u64>,
    next: u64,
    bell: Bell,
}

impl View for Spot {
    type V = SpotView;

    closed spec fn view(&self) -> SpotView {
        SpotView {
            parked: self.parked@,
            releases: self.releases@,
            next: self.next,
            cvar: self.bell.cvar(),
            singles: self.bell.singles(),
            broadcasts: self.bell.broadcasts(),
        }
    }
}

impl Spot {
    /// The number of threads that are parked.
    pub fn num_parked(&self) -> (count: usize)
        ensures
            count == self@.parked.len(),
    {
        self.parked.len()
    }

    /// A spot where nobody is parked, with a condition variable of its own.
    fn new() -> (spot: Spot)
        ensures
            spot.parked@ == Set::<u64>::empty(),
            spot.releases@ == Seq::<u64>::empty(),
            spot.next == 0,
            spot.bell.singles() == 0,
            spot.bell.broadcasts() == 0,
    {
        Spot { parked: BTreeSet::new(), releases: Vec::new(), next: 0, bell: Bell::new() }
    }

    /// The number of releases that the thread with the number `ticket` cannot use, because it
    /// arrived after them.
    fn count_missed(&self, ticket: u64) -> (count: usize)
        requires
            self@.wf(),
        ensures
            count == missed(self@.releases, ticket),
    {
        let mut count: usize = 0;
        while count < self.releases.len() && self.releases[count] <= ticket
            invariant
                count <= self.releases.len(),
                forall|i: int| 0 <= i < count ==> #[trigger] self.releases@[i] <= ticket,
            decreases self.releases.len() - count,
        {
            count = count + 1;
        }
        proof {
            lemma_missed_is(self@.releases, ticket, count as nat);
        }
        count
    }

    /// The number of threads for which there is no release.
    fn count_held(&self) -> (count: usize)
        requires
            self@.wf(),
        ensures
            count == self@.parked.len() - self@.releases.len(),
    {
        proof {
            lemma_no_more_releases_than_threads(self@);
        }
        self.parked.len() - self.releases.len()
    }

    /// Grants `count` releases.
    fn grant(&mut self, count: usize)
        ensures
            final(self)@ == old(self)@.grant(count as nat),
            final(self).bell == old(self).bell,
    {
        let mut granted: usize = 0;
        assert(self.releases@ =~= self.releases@ + Seq::new(0, |i: int| self.next));
        while granted < count
            invariant
                granted <= count,
                self.parked == old(self).parked,
                self.next == old(self).next,
                self.bell == old(self).bell,
                self.releases@ == old(self).releases@ + Seq::new(
                    granted as nat,
                    |i: int| old(self).next,
                ),
            decreases count - granted,
        {
            self.releases.push(self.next);
            granted = granted + 1;
            assert(self.releases@ =~= old(self).releases@ + Seq::new(
                granted as nat,
                |i: int| old(self).next,
            ));
        }
    }

    /// What [`Spot::unpark`] makes of a spot.
    spec fn unparks(self, n: usize, answer: (Spot, usize)) -> bool {
        let (spot, num_unpark) = answer;
        let granted = self@.grant(num_unpark as nat);
        &&& num_unpark == least(n as nat, (self@.parked.len() - self@.releases.len()) as nat)
        &&& spot@ == (SpotView { singles: granted.singles + num_unpark as nat, ..granted })
        &&& spot@.wf()
    }

    /// Unparks up to `n` of the threads that are held, and notifies as many.
    fn unpark(self, n: usize) -> (answer: (Spot, usize))
        requires
            self@.wf(),
        ensures
            self.unparks(n, answer),
            answer.0.bell.cvar() == self.bell.cvar(),
            answer.0.bell.singles() == self.bell.singles() + answer.1,
            answer.0.bell.broadcasts() == self.bell.broadcasts(),
    {
        let mut spot = self;
        let held = spot.count_held();
        let num_unpark = if n <= held {
            n
        } else {
            held
        };
        spot.grant(num_unpark);
        let ghost granted = spot@;
        proof {
            lemma_grant_keeps_wf(self@, num_unpark as nat);
        }
        let mut notified: usize = 0;
        while notified < num_unpark
            invariant
                notified <= num_unpark,
                spot@ == (SpotView { singles: granted.singles + notified as nat, ..granted }),
                spot.bell.cvar() == self.bell.cvar(),
                spot.bell.singles() == self.bell.singles() + notified,
                spot.bell.broadcasts() == self.bell.broadcasts(),
            decreases num_unpark - notified,
        {
            spot.bell.notify_one();
            notified = notified + 1;
        }
        (spot, num_unpark)
    }

    /// What [`Spot::unpark_all`] makes of a spot.
    spec fn unparks_all(self, answer: (Spot, usize)) -> bool {
        let (spot, num_unpark) = answer;
        let granted = self@.grant(num_unpark as nat);
        &&& num_unpark == self@.parked.len() - self@.releases.len()
        &&& spot@ == (SpotView { broadcasts: granted.broadcasts + 1, ..granted })
        &&& spot@.wf()
    }

    /// Unparks all threads that are held, and notifies all.
    fn unpark_all(self) -> (answer: (Spot, usize))
        requires
            self@.wf(),
        ensures
            self.unparks_all(answer),
            answer.0.bell.cvar() == self.bell.cvar(),
            answer.0.bell.singles() == self.bell.singles(),
            answer.0.bell.broadcasts() == self.bell.broadcasts() + 1,
    {
        let mut spot = self;
        let num_unpark = spot.count_held();
        spot.grant(num_unpark);
        spot.bell.notify_all();
        proof {
            lemma_grant_keeps_wf(self@, num_unpark as nat);
        }
        (spot, num_unpark)
    }
}

/// A thread that is parked: what it needs until it leaves.
#[derive(Debug)]
pub struct Parked {
    /// The key it is parked under.
    pub key: usize,
    /// Its number among the threads that have parked under the key.
    pub ticket: u64,
    /// For how many nanoseconds it wants to be parked at most.
    pub timeout: Option<u128>,
    /// The condition variable to wait on.
    pub cvar: Arc<Condvar>,
}

/// The parked threads, by the key they are parked under.
pub struct ParkingSpot {
    inner: BTreeMap<usize, Spot>,
}

impl View for ParkingSpot {
    type V = Table;

    closed spec fn view(&self) -> Table {
        self.inner@.map_values(|spot: Spot| spot@)
    }
}

impl Default for ParkingSpot {
    /// A parking spot where nobody is parked.
    fn default() -> (spot: ParkingSpot)
        ensures
            spot.wf(),
            spot@ == Map::<usize, SpotView>::empty(),
    {
        let spot = ParkingSpot { inner: BTreeMap::new() };
        assert(spot@ =~= Map::<usize, SpotView>::empty());
        spot
    }
}

impl ParkingSpot {
    /// What every operation keeps: no spot is empty, and there is a thread for each release.
    pub open spec fn wf(&self) -> bool {
        well_formed(self@)
    }

    /// Applies `f` to the spot under `key`, if there is one. There is none once every thread
    /// that has parked under `key` has returned.
    ///
    /// The spot that `f` hands back takes the place of the one that it was given.
    pub fn with_lot<R, F: FnOnce(Spot) -> (Spot, R)>(&mut self, key: usize, f: F) -> (answer: Option<
        R,
    >)
        requires
            old(self).wf(),
            forall|spot: Spot|
                old(self)@.contains_key(key) && #[trigger] spot@ == old(self)@[key]
                    ==> call_requires(f, (spot,)),
            forall|spot: Spot, output: (Spot, R)|
                old(self)@.contains_key(key) && spot@ == old(self)@[key]
                    && #[trigger] call_ensures(f, (spot,), output) ==> output.0@.wf(),
        ensures
            final(self).wf(),
            answer is Some <==> old(self)@.contains_key(key),
            answer is None ==> final(self)@ == old(self)@,
            answer is Some ==> exists|spot: Spot, output: (Spot, R)|
                {
                    &&& spot@ == old(self)@[key]
                    &&& #[trigger] call_ensures(f, (spot,), output)
                    &&& final(self)@ == old(self)@.insert(key, output.0@)
                    &&& answer == Some(output.1)
                },
    {
        match self.inner.remove(&key) {
            Some(spot) => {
                assert(old(self)@.contains_key(key) && spot@ == old(self)@[key]);
                let (changed, value) = f(spot);
                assert(call_ensures(f, (spot,), (changed, value)));
                self.inner.insert(key, changed);
                assert(self@ =~= old(self)@.insert(key, changed@));
                Some(value)
            },
            None => {
                assert(self@ =~= old(self)@);
                None
            },
        }
    }

    /// The number of threads parked under `key`.
    pub fn num_parked(&self, key: usize) -> (count: usize)
        ensures
            count == parked(self@, key),
            self@.contains_key(key) ==> count == self@[key].parked.len(),
            !self@.contains_key(key) ==> count == 0,
    {
        match self.inner.get(&key) {
            Some(spot) => spot.num_parked(),
            None => 0,
        }
    }

    /// Whether one more thread can park under `key`.
    pub fn has_room(&self, key: usize) -> (room: bool)
        ensures
            room == has_room(self@, key),
            room == (self@.contains_key(key) ==> self@[key].parked.len() < usize::MAX
                && self@[key].next < u64::MAX),
    {
        match self.inner.get(&key) {
            Some(spot) => spot.parked.len() < usize::MAX && spot.next < u64::MAX,
            None => true,
        }
    }

    /// Whether `thread` is parked.
    pub fn is_parked(&self, thread: &Parked) -> (answer: bool)
        ensures
            answer == is_parked(self@, thread.key, thread.ticket),
            answer == (self@.contains_key(thread.key) && self@[thread.key].parked.contains(
                thread.ticket,
            )),
    {
        match self.inner.get(&thread.key) {
            Some(spot) => spot.parked.contains(&thread.ticket),
            None => false,
        }
    }

    /// Parks a thread, unless `validate` objects.
    ///
    /// The `key` is used to identify the spot: an `unpark_all` or `unpark` with the same key
    /// can release the thread.
    ///
    /// The `validate` callback is called before parking. If it returns `false`, the thread is
    /// not parked and `ParkResult::Invalid` is the result of its park operation.
    ///
    /// The `timeout` is the number of nanoseconds for which the thread is parked at most.
    ///
    /// A thread that is parked goes on with [`ParkingSpot::park_inner`], starting with a look
    /// at the clock.
    pub fn park(
        &mut self,
        key: usize,
        validate: impl FnOnce() -> bool,
        timeout: Option<u128>,
    ) -> (outcome: Result<Parked, ParkResult>)
        requires
            old(self).wf(),
            call_requires(validate, ()),
            call_ensures(validate, (), true) ==> has_room(old(self)@, key),
        ensures
            final(self).wf(),
            match outcome {
                Ok(thread) => {
                    &&& call_ensures(validate, (), true)
                    &&& thread.key == key
                    &&& thread.ticket == next_ticket(old(self)@, key)
                    &&& thread.timeout == timeout
                    &&& final(self)@ == after_enter(old(self)@, key, thread.cvar)
                    &&& final(self)@.contains_key(key)
                    &&& final(self)@[key].cvar == thread.cvar
                    &&& final(self)@[key].parked.contains(thread.ticket)
                    &&& old(self)@.contains_key(key) ==> {
                        &&& thread.cvar == old(self)@[key].cvar
                        &&& !old(self)@[key].parked.contains(thread.ticket)
                        &&& final(self)@[key].parked == old(self)@[key].parked.insert(thread.ticket)
                        &&& final(self)@[key].releases == old(self)@[key].releases
                    }
                },
                Err(result) => {
                    &&& call_ensures(validate, (), false)
                    &&& result == ParkResult::Invalid
                    &&& final(self)@ == old(self)@
                },
            },
    {
        if !validate() {
            return Err(ParkResult::Invalid);
        }
        let mut spot = match self.inner.remove(&key) {
            Some(spot) => spot,
            None => Spot::new(),
        };
        let ghost before = spot@;
        let ticket = spot.next;
        spot.parked.insert(ticket);
        spot.next = ticket + 1;
        let cvar = spot.bell.share();
        self.inner.insert(key, spot);
        proof {
            if old(self)@.contains_key(key) {
                lemma_enter_keeps_wf(before);
            } else {
                assert(spot@.parked =~= set![0]);
            }
            assert(self@ =~= after_enter(old(self)@, key, cvar));
        }
        Ok(Parked { key, ticket, timeout, cvar })
    }

    /// One turn of a parked thread: takes what has happened to it, and says what it has to do
    /// next.
    ///
    /// A thread that is told to return is no longer parked. If there is a release that it can
    /// use, it uses the oldest of these up, even if it returns because its time is up.
    pub fn park_inner(&mut self, thread: &Parked, event: ParkEvent) -> (action: ParkAction)
        requires
            old(self).wf(),
            is_parked(old(self)@, thread.key, thread.ticket),
        ensures
            final(self).wf(),
            action == park_action(old(self)@, thread.key, thread.ticket, thread.timeout, event),
            final(self)@ == after_action(old(self)@, thread.key, thread.ticket, action),
            match event {
                ParkEvent::Clock { elapsed } => match thread.timeout {
                    None => action == ParkAction::Wait,
                    Some(limit) => if elapsed < limit {
                        action matches ParkAction::WaitTimeout { nanos } && elapsed + nanos == limit
                    } else {
                        action == (ParkAction::Return { result: ParkResult::TimedOut })
                    },
                },
                ParkEvent::Woken { timed_out } => {
                    let releases = old(self)@[thread.key].releases;
                    if timed_out {
                        action == (ParkAction::Return { result: ParkResult::TimedOut })
                    } else if exists|i: int|
                        0 <= i < releases.len() && #[trigger] releases[i] > thread.ticket {
                        action == (ParkAction::Return { result: ParkResult::Unparked })
                    } else {
                        action == ParkAction::ReadClock
                    }
                },
            },
            if action is Return {
                let after = final(self)@;
                after.contains_key(thread.key) ==> !after[thread.key].parked.contains(
                    thread.ticket,
                )
            } else {
                final(self)@ == old(self)@
            },
    {
        let key = thread.key;
        let ticket = thread.ticket;
        let timed_out = match event {
            ParkEvent::Clock { elapsed } => match thread.timeout {
                Some(limit) => {
                    if elapsed < limit {
                        return ParkAction::WaitTimeout { nanos: limit - elapsed };
                    }
                    true
                },
                None => {
                    return ParkAction::Wait;
                },
            },
            ParkEvent::Woken { timed_out } => timed_out,
        };
        assert(old(self)@[key].wf());
        let mut spot = self.inner.remove(&key).unwrap();
        let ghost before = spot@;
        let count = spot.count_missed(ticket);
        proof {
            lemma_missed_come_first(before.releases, ticket);
        }
        if !timed_out && count == spot.releases.len() {
            self.inner.insert(key, spot);
            assert(self@ =~= old(self)@);
            return ParkAction::ReadClock;
        }
        if count < spot.releases.len() {
            spot.releases.remove(count);
        }
        if spot.parked.len() > 1 {
            spot.parked.remove(&ticket);
            proof {
                lemma_leave_keeps_wf(before, ticket);
            }
            self.inner.insert(key, spot);
        }
        assert(self@ =~= after_leave(old(self)@, key, ticket));
        if timed_out {
            ParkAction::Return { result: ParkResult::TimedOut }
        } else {
            ParkAction::Return { result: ParkResult::Unparked }
        }
    }

    /// Unpark `n` threads maximal that are parked with the given key.
    ///
    /// Returns the number of threads that were actually unparked.
    pub fn unpark(&mut self, key: usize, n: usize) -> (num_unpark: usize)
        requires
            old(self).wf(),
        ensures
            final(self).wf(),
            num_unpark == least(n as nat, held(old(self)@, key)),
            final(self)@ == after_unpark(old(self)@, key, num_unpark as nat),
            num_unpark <= n,
            !old(self)@.contains_key(key) ==> num_unpark == 0 && final(self)@ == old(self)@,
            old(self)@.contains_key(key) ==> {
                let before = old(self)@[key];
                let after = final(self)@[key];
                &&& after.cvar == before.cvar
                &&& after.singles == before.singles + num_unpark
                &&& after.broadcasts == before.broadcasts
                &&& after.parked == before.parked
                &&& after.releases.len() == before.releases.len() + num_unpark
                &&& after.releases.len() <= after.parked.len()
                &&& num_unpark == n || after.releases.len() == after.parked.len()
            },
    {
        let mark = |spot: Spot| -> (answer: (Spot, usize))
            requires
                spot@.wf(),
            ensures
                spot.unparks(n, answer),
        {
            spot.unpark(n)
        };
        let answer = self.with_lot(key, mark);
        proof {
            let count = least(n as nat, held(old(self)@, key));
            if old(self)@.contains_key(key) {
                lemma_no_more_releases_than_threads(old(self)@[key]);
            }
            assert(self@ =~= after_unpark(old(self)@, key, count));
        }
        match answer {
            Some(num_unpark) => num_unpark,
            None => 0,
        }
    }

    /// Unpark all threads that are parked with the given key.
    ///
    /// Returns the number of threads that were unparked.
    pub fn unpark_all(&mut self, key: usize) -> (num_unpark: usize)
        requires
            old(self).wf(),
        ensures
            final(self).wf(),
            num_unpark == held(old(self)@, key),
            final(self)@ == after_unpark_all(old(self)@, key),
            !old(self)@.contains_key(key) ==> num_unpark == 0 && final(self)@ == old(self)@,
            old(self)@.contains_key(key) ==> {
                let before = old(self)@[key];
                let after = final(self)@[key];
                &&& after.cvar == before.cvar
                &&& after.singles == before.singles
                &&& after.broadcasts == before.broadcasts + 1
                &&& after.parked == before.parked
                &&& after.releases.len() == before.releases.len() + num_unpark
                &&& after.releases.len() == after.parked.len()
            },
    {
        let mark = |spot: Spot| -> (answer: (Spot, usize))
            requires
                spot@.wf(),
            ensures
                spot.unparks_all(answer),
        {
            spot.unpark_all()
        };
        let answer = self.with_lot(key, mark);
        assert(self@ =~= after_unpark_all(old(self)@, key));
        match answer {
            Some(num_unpark) => num_unpark,
            None => 0,
        }
    }
}

} // verus!
