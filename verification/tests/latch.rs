//! Many threads around one parking table, played one step at a time in a shuffled order.
//!
//! A step is what a thread does while it holds the lock on the table: a thread that waits
//! gives the lock up, and goes on at any later step, notified or not.
use parking_spot::{ParkAction, ParkEvent, ParkResult, Parked, ParkingSpot};

/// A deterministic source of shuffled orders.
struct Dice(u64);

impl Dice {
    fn below(&mut self, n: usize) -> usize {
        self.0 = self.0.wrapping_mul(6364136223846793005).wrapping_add(1442695040888963407);
        (self.0 >> 33) as usize % n
    }
}

/// A thread that waits on the condition variable of its spot.
struct Sleeper {
    thread: Parked,
}

impl Sleeper {
    /// Parks a thread, up to where it waits.
    fn park(spot: &mut ParkingSpot, key: usize, valid: bool) -> Result<Sleeper, ParkResult> {
        let thread = spot.park(key, || valid, None)?;
        let sleeper = Sleeper { thread };
        sleeper.wait(spot);
        Ok(sleeper)
    }

    fn wait(&self, spot: &mut ParkingSpot) {
        let clock = ParkEvent::Clock { elapsed: 0 };
        assert_eq!(spot.park_inner(&self.thread, clock), ParkAction::Wait);
    }

    /// Wakes up, and goes on up to where the thread returns or waits again.
    fn wake_up(&self, spot: &mut ParkingSpot) -> Option<ParkResult> {
        match spot.park_inner(&self.thread, ParkEvent::Woken { timed_out: false }) {
            ParkAction::ReadClock => {
                self.wait(spot);
                None
            }
            ParkAction::Return { result } => Some(result),
            action => panic!("unexpected {:?}", action),
        }
    }
}

enum Phase {
    Start,
    Parking,
    Parked(Sleeper),
    Awake,
}

/// A semaphore that starts out unavailable, and threads that want one slot each.
struct SingleLatchTest {
    key: usize,
    semaphore: isize,
    num_awake: usize,
    /// All threads participating in this test.
    threads: Vec<Phase>,
}

impl SingleLatchTest {
    fn new(key: usize, num_threads: usize) -> Self {
        SingleLatchTest {
            key,
            semaphore: 0,
            num_awake: 0,
            threads: (0..num_threads).map(|_| Phase::Start).collect(),
        }
    }

    fn step(&mut self, spot: &mut ParkingSpot, index: usize) {
        let phase = std::mem::replace(&mut self.threads[index], Phase::Awake);
        self.threads[index] = match phase {
            Phase::Start => {
                let old_semaphore_value = self.semaphore;
                self.semaphore -= 1;
                if old_semaphore_value > 0 {
                    // We acquired the semaphore. Done.
                    self.num_awake += 1;
                    Phase::Awake
                } else {
                    // We need to wait.
                    Phase::Parking
                }
            }
            Phase::Parking => match Sleeper::park(spot, self.key, true) {
                Ok(sleeper) => Phase::Parked(sleeper),
                Err(result) => panic!("not parked: {:?}", result),
            },
            Phase::Parked(sleeper) => match sleeper.wake_up(spot) {
                Some(result) => {
                    assert_eq!(result, ParkResult::Unparked);
                    self.num_awake += 1;
                    Phase::Awake
                }
                None => Phase::Parked(sleeper),
            },
            Phase::Awake => Phase::Awake,
        };
    }
}

struct World {
    spot: ParkingSpot,
    dice: Dice,
    tests: Vec<SingleLatchTest>,
}

impl World {
    /// Lets some thread of some test make a step.
    fn yield_now(&mut self) {
        let test = self.dice.below(self.tests.len());
        let index = self.dice.below(self.tests[test].threads.len());
        self.tests[test].step(&mut self.spot, index);
    }

    fn up(&mut self, test: usize) {
        let old_semaphore_value = self.tests[test].semaphore;
        self.tests[test].semaphore += 1;

        // Check if anyone was waiting on the semaphore. If they were, then pass ownership to them.
        if old_semaphore_value < 0 {
            // We need to continue until we have actually unparked someone. It might be that
            // the thread we want to pass ownership to has decremented the semaphore counter,
            // but not yet parked.
            loop {
                match self.spot.unpark(self.tests[test].key, 1) {
                    1 => break,
                    0 => self.yield_now(),
                    i => panic!("Should not wake up {} threads", i),
                }
            }
        }
    }

    fn unpark_one(&mut self, test: usize) {
        let num_awake_before_up = self.tests[test].num_awake;

        self.up(test);

        // Wait for a parked thread to wake up and update num_awake.
        while self.tests[test].num_awake != num_awake_before_up + 1 {
            self.yield_now();
        }
    }

    fn finish(&mut self, test: usize, num_single_unparks: usize) {
        let key = self.tests[test].key;
        // The amount of threads not unparked via unpark_one
        let mut num_threads_left = self.tests[test]
            .threads
            .len()
            .checked_sub(num_single_unparks)
            .unwrap();

        // Wake remaining threads up with unpark_all. Has to be in a loop, because there might
        // still be threads that has not yet parked.
        while num_threads_left > 0 {
            let num_waiting_on_address = self.num_waiting_on_address(key);
            assert!(num_waiting_on_address <= num_threads_left);

            let num_awake_before_unpark = self.tests[test].num_awake;

            let num_unparked = self.spot.unpark_all(key);
            assert!(num_unparked >= num_waiting_on_address);
            assert!(num_unparked <= num_threads_left);

            // Wait for all unparked threads to wake up and update num_awake.
            while self.tests[test].num_awake != num_awake_before_unpark + num_unparked {
                self.yield_now();
            }

            num_threads_left = num_threads_left.checked_sub(num_unparked).unwrap();
            self.yield_now();
        }
        // By now, all threads should have been woken up
        assert_eq!(self.tests[test].num_awake, self.tests[test].threads.len());

        // Make sure no thread is parked on our semaphore address
        assert_eq!(self.num_waiting_on_address(key), 0);
        assert_eq!(self.spot.num_parked(key), 0);
    }

    fn num_waiting_on_address(&mut self, key: usize) -> usize {
        let mut num_waiting_on_address = 0;
        self.spot.with_lot(key, |thread_data| {
            num_waiting_on_address = thread_data.num_parked();
            (thread_data, ())
        });
        num_waiting_on_address
    }
}

fn run_parking_test(
    seed: usize,
    num_latches: usize,
    delay: usize,
    num_threads: usize,
    num_single_unparks: usize,
) {
    let mut world = World {
        spot: ParkingSpot::default(),
        dice: Dice(seed as u64),
        tests: (0..num_latches)
            .map(|latch| SingleLatchTest::new(0x1000 + 8 * latch, num_threads))
            .collect(),
    };

    for _ in 0..num_single_unparks {
        for _ in 0..delay {
            world.yield_now();
        }
        for test in 0..num_latches {
            world.unpark_one(test);
        }
    }

    for test in 0..num_latches {
        world.finish(test, num_single_unparks);
    }
}

fn repeat_parking_test(
    repeats: usize,
    latches: usize,
    delay: usize,
    threads: usize,
    single_unparks: usize,
) {
    for seed in 0..repeats {
        run_parking_test(seed, latches, delay, threads, single_unparks);
    }
}

#[test]
fn unpark_all_one_fast() {
    repeat_parking_test(10000, 1, 0, 1, 0);
}

#[test]
fn unpark_all_hundred_fast() {
    repeat_parking_test(100, 1, 0, 100, 0);
}

#[test]
fn unpark_one_one_fast() {
    repeat_parking_test(1000, 1, 0, 1, 1);
}

#[test]
fn unpark_one_hundred_fast() {
    repeat_parking_test(20, 1, 0, 100, 100);
}

#[test]
fn unpark_one_fifty_then_fifty_all_fast() {
    repeat_parking_test(50, 1, 0, 100, 50);
}

#[test]
fn unpark_all_one() {
    repeat_parking_test(100, 1, 10000, 1, 0);
}

#[test]
fn unpark_all_hundred() {
    repeat_parking_test(100, 1, 10000, 100, 0);
}

#[test]
fn unpark_one_one() {
    repeat_parking_test(10, 1, 10000, 1, 1);
}

#[test]
fn unpark_one_fifty() {
    repeat_parking_test(1, 1, 10000, 50, 50);
}

#[test]
fn unpark_one_fifty_then_fifty_all() {
    repeat_parking_test(2, 1, 10000, 100, 50);
}

#[test]
fn hundred_unpark_all_one_fast() {
    repeat_parking_test(100, 100, 0, 1, 0);
}

#[test]
fn hundred_unpark_all_one() {
    repeat_parking_test(1, 100, 10000, 1, 0);
}

/// What a thread does with the atomic, one after the other.
enum Op {
    Store(u64),
    UnparkAll,
    /// Parks if the atomic holds the value.
    ParkIf(u64),
    /// Parks again and again until the atomic holds the value.
    ParkUntil(u64),
    Expect(u64),
}

struct Script {
    ops: Vec<Op>,
    next: usize,
    sleeper: Option<Sleeper>,
}

impl Script {
    fn new(ops: Vec<Op>) -> Self {
        Script { ops, next: 0, sleeper: None }
    }

    fn is_done(&self) -> bool {
        self.next == self.ops.len()
    }
}

fn step(spot: &mut ParkingSpot, key: usize, script: &mut Script, atomic: &mut u64) {
    if let Some(sleeper) = &script.sleeper {
        if let Some(result) = sleeper.wake_up(spot) {
            assert_eq!(result, ParkResult::Unparked);
            script.sleeper = None;
            if let Op::ParkIf(_) = script.ops[script.next] {
                script.next += 1;
            }
        }
        return;
    }
    if script.is_done() {
        return;
    }
    match script.ops[script.next] {
        Op::ParkIf(_) | Op::ParkUntil(_) => {
            let valid = match script.ops[script.next] {
                Op::ParkIf(value) => *atomic == value,
                Op::ParkUntil(value) => *atomic != value,
                _ => unreachable!(),
            };
            match Sleeper::park(spot, key, valid) {
                Ok(sleeper) => script.sleeper = Some(sleeper),
                Err(result) => {
                    assert_eq!(result, ParkResult::Invalid);
                    script.next += 1;
                }
            }
        }
        Op::Store(value) => {
            *atomic = value;
            script.next += 1;
        }
        Op::Expect(value) => {
            assert_eq!(*atomic, value);
            script.next += 1;
        }
        Op::UnparkAll => {
            spot.unpark_all(key);
            script.next += 1;
        }
    }
}

/// Plays the scripts in a shuffled order, and gives back what the atomic holds in the end.
fn play(seed: u64, mut scripts: Vec<Script>) -> u64 {
    let key = 0x7000;
    let mut spot = ParkingSpot::default();
    let mut dice = Dice(seed);
    let mut atomic = 0;
    let mut steps = 0;
    while scripts.iter().any(|script| !script.is_done()) {
        let index = dice.below(scripts.len());
        step(&mut spot, key, &mut scripts[index], &mut atomic);
        steps += 1;
        assert!(steps < 1_000_000, "a thread is never woken up");
    }
    assert_eq!(spot.num_parked(key), 0);
    atomic
}

#[test]
fn atomic_wait_notify() {
    for seed in 0..2000 {
        let thread1 = Script::new(vec![Op::Store(1), Op::UnparkAll, Op::ParkIf(1)]);
        let thread2 = Script::new(vec![
            Op::ParkUntil(1),
            Op::Store(2),
            Op::UnparkAll,
            Op::ParkIf(2),
        ]);
        let thread3 = Script::new(vec![
            Op::ParkUntil(2),
            Op::Store(3),
            Op::UnparkAll,
            Op::ParkIf(3),
        ]);
        let thread4 = Script::new(vec![Op::ParkUntil(3), Op::Store(4), Op::UnparkAll]);
        assert_eq!(play(seed, vec![thread1, thread2, thread3, thread4]), 4);
    }
}

#[test]
fn a_value_is_handed_back_and_forth() {
    for seed in 0..2000 {
        let spawned = Script::new(vec![
            Op::Store(1),
            Op::UnparkAll,
            Op::ParkIf(1),
            Op::Expect(2),
        ]);
        let spawner = Script::new(vec![Op::ParkIf(0), Op::Store(2), Op::UnparkAll]);
        assert_eq!(play(seed, vec![spawned, spawner]), 2);
    }
}
