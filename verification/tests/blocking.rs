//! The parking table behind a lock, with the clock and the condition variables of `std`.
use parking_spot::{ParkAction, ParkEvent, ParkResult, ParkingSpot};
use std::sync::Mutex;
use std::time::{Duration, Instant};

fn park(
    table: &Mutex<ParkingSpot>,
    key: usize,
    validate: impl FnOnce() -> bool,
    timeout: Option<Duration>,
) -> ParkResult {
    let start = Instant::now();
    let mut inner = table.lock().unwrap();
    let thread = match inner.park(key, validate, timeout.map(|limit| limit.as_nanos())) {
        Ok(thread) => thread,
        Err(result) => return result,
    };
    let mut event = ParkEvent::Clock { elapsed: start.elapsed().as_nanos() };
    loop {
        event = match inner.park_inner(&thread, event) {
            ParkAction::Wait => {
                inner = thread.cvar.wait(inner).unwrap();
                ParkEvent::Woken { timed_out: false }
            }
            ParkAction::WaitTimeout { nanos } => {
                let limit = Duration::new((nanos / 1_000_000_000) as u64, (nanos % 1_000_000_000) as u32);
                let (lock, result) = thread.cvar.wait_timeout(inner, limit).unwrap();
                inner = lock;
                ParkEvent::Woken { timed_out: result.timed_out() }
            }
            ParkAction::ReadClock => ParkEvent::Clock { elapsed: start.elapsed().as_nanos() },
            ParkAction::Return { result } => return result,
        };
    }
}

#[test]
fn a_thread_that_nobody_unparks_times_out() {
    let table = Mutex::new(ParkingSpot::default());
    let limit = Duration::from_millis(20);
    let start = Instant::now();
    assert_eq!(park(&table, 7, || true, Some(limit)), ParkResult::TimedOut);
    assert!(start.elapsed() >= limit);
    assert_eq!(table.lock().unwrap().num_parked(7), 0);
}

#[test]
fn a_timeout_of_zero_times_out_at_once() {
    let table = Mutex::new(ParkingSpot::default());
    assert_eq!(park(&table, 7, || true, Some(Duration::ZERO)), ParkResult::TimedOut);
    assert_eq!(table.lock().unwrap().num_parked(7), 0);
}

#[test]
fn a_thread_that_need_not_park_does_not_wait() {
    let table = Mutex::new(ParkingSpot::default());
    assert_eq!(park(&table, 7, || false, None), ParkResult::Invalid);
    assert_eq!(park(&table, 7, || false, Some(Duration::MAX)), ParkResult::Invalid);
}
