//! The parking table, one operation at a time.
use parking_spot::{ParkAction, ParkEvent, ParkResult, Parked, ParkingSpot};
use std::sync::Arc;

const NOTIFIED: ParkEvent = ParkEvent::Woken { timed_out: false };
const OUT_OF_TIME: ParkEvent = ParkEvent::Woken { timed_out: true };
const UNPARKED: ParkAction = ParkAction::Return { result: ParkResult::Unparked };
const TIMED_OUT: ParkAction = ParkAction::Return { result: ParkResult::TimedOut };

fn enter(spot: &mut ParkingSpot, key: usize, timeout: Option<u128>) -> Parked {
    match spot.park(key, || true, timeout) {
        Ok(thread) => thread,
        Err(result) => panic!("not parked: {:?}", result),
    }
}

#[test]
fn nobody_is_parked_at_first() {
    let mut spot = ParkingSpot::default();
    assert_eq!(spot.num_parked(7), 0);
    assert_eq!(spot.unpark(7, 5), 0);
    assert_eq!(spot.unpark_all(7), 0);
    assert_eq!(spot.num_parked(7), 0);
}

#[test]
fn a_failed_validation_is_invalid_and_parks_nobody() {
    let mut spot = ParkingSpot::default();
    assert!(matches!(spot.park(7, || false, None), Err(ParkResult::Invalid)));
    assert!(matches!(spot.park(7, || false, Some(10)), Err(ParkResult::Invalid)));
    assert_eq!(spot.num_parked(7), 0);

    let _thread = enter(&mut spot, 7, None);
    assert!(matches!(spot.park(7, || false, None), Err(ParkResult::Invalid)));
    assert_eq!(spot.num_parked(7), 1);
}

#[test]
fn validation_is_called_once_before_parking() {
    let mut spot = ParkingSpot::default();
    let mut calls = 0;
    let outcome = spot.park(
        7,
        || {
            calls += 1;
            true
        },
        None,
    );
    assert!(outcome.is_ok());
    assert_eq!(calls, 1);
}

#[test]
fn a_parked_thread_carries_what_it_was_parked_with() {
    let mut spot = ParkingSpot::default();
    let thread = enter(&mut spot, 7, Some(1_500_000_000));
    assert_eq!(thread.key, 7);
    assert_eq!(thread.ticket, 0);
    assert_eq!(thread.timeout, Some(1_500_000_000));
    let thread = enter(&mut spot, 8, None);
    assert_eq!(thread.key, 8);
    assert_eq!(thread.ticket, 0);
    assert_eq!(thread.timeout, None);
    let thread = enter(&mut spot, 7, None);
    assert_eq!(thread.ticket, 1);
}

#[test]
fn threads_are_numbered_as_they_arrive() {
    let mut spot = ParkingSpot::default();
    let first = enter(&mut spot, 7, Some(100));
    let second = enter(&mut spot, 7, None);
    assert!(spot.has_room(7) && spot.has_room(8));
    assert!(spot.is_parked(&first) && spot.is_parked(&second));
    assert_eq!(spot.park_inner(&first, OUT_OF_TIME), TIMED_OUT);
    assert!(!spot.is_parked(&first) && spot.is_parked(&second));

    // a number is not given again while the spot lasts
    let third = enter(&mut spot, 7, None);
    assert_eq!((first.ticket, second.ticket, third.ticket), (0, 1, 2));
    assert!(!spot.is_parked(&first));
}

#[test]
fn a_newcomer_that_times_out_leaves_the_releases_alone() {
    let mut spot = ParkingSpot::default();
    let first = enter(&mut spot, 7, None);
    assert_eq!(spot.unpark_all(7), 1);
    let second = enter(&mut spot, 7, Some(0));
    assert_eq!(spot.park_inner(&second, ParkEvent::Clock { elapsed: 0 }), TIMED_OUT);
    assert_eq!(spot.park_inner(&first, NOTIFIED), UNPARKED);
    assert_eq!(spot.num_parked(7), 0);

    let first = enter(&mut spot, 7, None);
    assert_eq!(spot.unpark(7, 1), 1);
    let second = enter(&mut spot, 7, Some(0));
    assert_eq!(spot.park_inner(&second, ParkEvent::Clock { elapsed: 0 }), TIMED_OUT);
    assert_eq!(spot.park_inner(&first, NOTIFIED), UNPARKED);
    assert_eq!(spot.num_parked(7), 0);
}

#[test]
fn a_newcomer_that_wakes_up_for_no_reason_leaves_the_releases_alone() {
    let mut spot = ParkingSpot::default();
    let first = enter(&mut spot, 7, None);
    let second = enter(&mut spot, 7, None);
    assert_eq!(spot.unpark_all(7), 2);
    let third = enter(&mut spot, 7, None);
    assert_eq!(spot.park_inner(&third, NOTIFIED), ParkAction::ReadClock);
    assert_eq!(spot.park_inner(&second, NOTIFIED), UNPARKED);
    assert_eq!(spot.park_inner(&third, NOTIFIED), ParkAction::ReadClock);
    assert_eq!(spot.park_inner(&first, NOTIFIED), UNPARKED);
    assert_eq!(spot.park_inner(&third, NOTIFIED), ParkAction::ReadClock);
    assert_eq!(spot.num_parked(7), 1);
}

#[test]
fn a_thread_uses_up_the_oldest_release_that_is_for_it() {
    let mut spot = ParkingSpot::default();
    let first = enter(&mut spot, 7, None);
    assert_eq!(spot.unpark(7, 1), 1);
    let second = enter(&mut spot, 7, None);
    let third = enter(&mut spot, 7, None);
    assert_eq!(spot.unpark(7, 1), 1);

    // the second release is for any of the three, the first one only for the first thread
    assert_eq!(spot.park_inner(&third, NOTIFIED), UNPARKED);
    assert_eq!(spot.park_inner(&second, NOTIFIED), ParkAction::ReadClock);
    assert_eq!(spot.park_inner(&first, NOTIFIED), UNPARKED);
    assert_eq!(spot.unpark_all(7), 1);
    assert_eq!(spot.park_inner(&second, NOTIFIED), UNPARKED);
    assert_eq!(spot.num_parked(7), 0);
}

#[test]
fn threads_between_two_unparks_wait_for_the_second() {
    let mut spot = ParkingSpot::default();
    let first = enter(&mut spot, 7, None);
    let second = enter(&mut spot, 7, None);
    assert_eq!(spot.unpark(7, 1), 1);
    let third = enter(&mut spot, 7, None);
    assert_eq!(spot.park_inner(&third, NOTIFIED), ParkAction::ReadClock);
    assert_eq!(spot.unpark_all(7), 2);
    assert_eq!(spot.park_inner(&third, NOTIFIED), UNPARKED);
    assert_eq!(spot.park_inner(&first, NOTIFIED), UNPARKED);
    assert_eq!(spot.park_inner(&second, OUT_OF_TIME), TIMED_OUT);
    assert_eq!(spot.num_parked(7), 0);
}

#[test]
fn a_flag_is_seen_or_its_thread_is_unparked() {
    // the thread parks before the flag is set
    let mut flag = false;
    let mut spot = ParkingSpot::default();
    let thread = spot.park(7, || !flag, None).unwrap();
    assert_eq!(spot.park_inner(&thread, NOTIFIED), ParkAction::ReadClock);
    flag = true;
    assert_eq!(spot.unpark_all(7), 1);
    assert_eq!(spot.park_inner(&thread, NOTIFIED), UNPARKED);

    // the thread parks before all are unparked, and after that
    let mut spot = ParkingSpot::default();
    assert!(matches!(spot.park(7, || !flag, None), Err(ParkResult::Invalid)));
    assert_eq!(spot.unpark_all(7), 0);
    assert!(matches!(spot.park(7, || !flag, None), Err(ParkResult::Invalid)));
}

#[test]
fn a_thread_without_timeout_waits_without_limit() {
    let mut spot = ParkingSpot::default();
    let thread = enter(&mut spot, 7, None);
    let clock = ParkEvent::Clock { elapsed: u128::MAX };
    assert_eq!(spot.park_inner(&thread, clock), ParkAction::Wait);
    assert_eq!(spot.park_inner(&thread, NOTIFIED), ParkAction::ReadClock);
    assert_eq!(spot.num_parked(7), 1);
}

#[test]
fn a_thread_waits_for_the_time_that_is_left() {
    let mut spot = ParkingSpot::default();
    let thread = enter(&mut spot, 7, Some(100));
    for elapsed in [0, 1, 30, 99] {
        let action = spot.park_inner(&thread, ParkEvent::Clock { elapsed });
        assert_eq!(action, ParkAction::WaitTimeout { nanos: 100 - elapsed });
        assert_eq!(spot.park_inner(&thread, NOTIFIED), ParkAction::ReadClock);
    }
    assert_eq!(spot.num_parked(7), 1);
}

#[test]
fn time_is_up_at_the_limit() {
    let mut spot = ParkingSpot::default();
    for elapsed in [100, 101, u128::MAX] {
        let thread = enter(&mut spot, 7, Some(100));
        let action = spot.park_inner(&thread, ParkEvent::Clock { elapsed });
        assert_eq!(action, TIMED_OUT);
        assert_eq!(spot.num_parked(7), 0);
    }
    let thread = enter(&mut spot, 7, Some(0));
    assert_eq!(spot.park_inner(&thread, ParkEvent::Clock { elapsed: 0 }), TIMED_OUT);
}

#[test]
fn a_timeout_without_release_returns_timed_out() {
    let mut spot = ParkingSpot::default();
    let first = enter(&mut spot, 7, Some(100));
    let second = enter(&mut spot, 7, None);
    assert_eq!(spot.park_inner(&first, OUT_OF_TIME), TIMED_OUT);
    assert_eq!(spot.num_parked(7), 1);

    // the other thread is still there to be unparked
    assert_eq!(spot.unpark_all(7), 1);
    assert_eq!(spot.park_inner(&second, NOTIFIED), UNPARKED);
    assert_eq!(spot.num_parked(7), 0);
}

#[test]
fn a_timeout_uses_up_a_release() {
    let mut spot = ParkingSpot::default();
    let first = enter(&mut spot, 7, Some(100));
    let second = enter(&mut spot, 7, None);
    let third = enter(&mut spot, 7, None);
    assert_eq!(spot.unpark(7, 2), 2);
    assert_eq!(spot.park_inner(&first, OUT_OF_TIME), TIMED_OUT);
    assert_eq!(spot.park_inner(&second, NOTIFIED), UNPARKED);
    assert_eq!(spot.park_inner(&third, NOTIFIED), ParkAction::ReadClock);
    assert_eq!(spot.num_parked(7), 1);
}

#[test]
fn a_thread_that_is_about_to_wait_does_not_take_a_release() {
    let mut spot = ParkingSpot::default();
    let first = enter(&mut spot, 7, None);
    assert_eq!(spot.unpark_all(7), 1);
    let second = enter(&mut spot, 7, None);
    let clock = ParkEvent::Clock { elapsed: 0 };
    assert_eq!(spot.park_inner(&second, clock), ParkAction::Wait);
    assert_eq!(spot.park_inner(&first, NOTIFIED), UNPARKED);
    assert_eq!(spot.park_inner(&second, NOTIFIED), ParkAction::ReadClock);
}

#[test]
fn unpark_counts_no_more_than_asked_and_no_more_than_held() {
    let mut spot = ParkingSpot::default();
    let threads: Vec<Parked> = (0..5).map(|_| enter(&mut spot, 7, None)).collect();
    assert_eq!(spot.unpark(7, 0), 0);
    assert_eq!(spot.unpark(7, 2), 2);
    assert_eq!(spot.unpark(7, 9), 3);
    assert_eq!(spot.unpark(7, 9), 0);
    assert_eq!(spot.num_parked(7), 5);
    for thread in &threads {
        assert_eq!(spot.park_inner(thread, NOTIFIED), UNPARKED);
    }
    assert_eq!(spot.num_parked(7), 0);
}

#[test]
fn unparks_add_up() {
    let mut one = ParkingSpot::default();
    let mut two = ParkingSpot::default();
    for _ in 0..6 {
        enter(&mut one, 7, None);
        enter(&mut two, 7, None);
    }
    assert_eq!(one.unpark(7, 1) + one.unpark(7, 3), 4);
    assert_eq!(two.unpark(7, 4), 4);
    assert_eq!(one.unpark_all(7), 2);
    assert_eq!(two.unpark_all(7), 2);
}

#[test]
fn unpark_all_counts_the_threads_that_are_left() {
    let mut spot = ParkingSpot::default();
    for _ in 0..4 {
        enter(&mut spot, 7, None);
    }
    assert_eq!(spot.unpark(7, 1), 1);
    assert_eq!(spot.unpark_all(7), 3);
    assert_eq!(spot.unpark_all(7), 0);
    assert_eq!(spot.unpark(7, usize::MAX), 0);
}

#[test]
fn unpark_all_is_a_large_unpark() {
    let mut spot = ParkingSpot::default();
    for _ in 0..3 {
        enter(&mut spot, 7, None);
        enter(&mut spot, 8, None);
    }
    assert_eq!(spot.unpark_all(7), 3);
    assert_eq!(spot.unpark(8, usize::MAX), 3);
}

#[test]
fn only_as_many_threads_return_as_were_unparked() {
    let mut spot = ParkingSpot::default();
    let threads: Vec<Parked> = (0..4).map(|_| enter(&mut spot, 7, None)).collect();
    assert_eq!(spot.unpark(7, 2), 2);
    let actions: Vec<ParkAction> = threads
        .iter()
        .map(|thread| spot.park_inner(thread, NOTIFIED))
        .collect();
    assert_eq!(
        actions,
        vec![UNPARKED, UNPARKED, ParkAction::ReadClock, ParkAction::ReadClock]
    );
    assert_eq!(spot.num_parked(7), 2);
}

#[test]
fn keys_are_independent() {
    let mut spot = ParkingSpot::default();
    let first = enter(&mut spot, 7, None);
    let second = enter(&mut spot, 8, Some(100));
    assert_eq!(spot.unpark_all(7), 1);
    assert_eq!(spot.park_inner(&second, NOTIFIED), ParkAction::ReadClock);
    assert_eq!(spot.num_parked(8), 1);
    assert_eq!(spot.park_inner(&second, OUT_OF_TIME), TIMED_OUT);
    assert_eq!(spot.num_parked(7), 1);
    assert_eq!(spot.park_inner(&first, NOTIFIED), UNPARKED);
}

#[test]
fn threads_under_one_key_share_a_condition_variable() {
    let mut spot = ParkingSpot::default();
    let first = enter(&mut spot, 7, None);
    let second = enter(&mut spot, 7, Some(5));
    let other = enter(&mut spot, 8, None);
    assert!(Arc::ptr_eq(&first.cvar, &second.cvar));
    assert!(!Arc::ptr_eq(&first.cvar, &other.cvar));

    // a thread keeps its spot, and its condition variable, for those that come later
    assert_eq!(spot.park_inner(&first, OUT_OF_TIME), TIMED_OUT);
    let third = enter(&mut spot, 7, None);
    assert!(Arc::ptr_eq(&second.cvar, &third.cvar));
}

#[test]
fn a_spot_starts_afresh_after_its_last_thread() {
    let mut spot = ParkingSpot::default();
    let thread = enter(&mut spot, 7, None);
    assert_eq!(spot.unpark(7, 1), 1);
    assert_eq!(spot.park_inner(&thread, NOTIFIED), UNPARKED);
    assert_eq!(spot.unpark_all(7), 0);

    let again = enter(&mut spot, 7, None);
    assert_eq!(spot.park_inner(&again, NOTIFIED), ParkAction::ReadClock);
    assert_eq!(spot.unpark_all(7), 1);
    assert_eq!(spot.park_inner(&again, NOTIFIED), UNPARKED);
}

#[test]
fn a_thread_waits_until_it_is_unparked_itself() {
    let mut spot = ParkingSpot::default();
    let first = enter(&mut spot, 7, None);
    let second = enter(&mut spot, 7, Some(100));
    assert_eq!(spot.unpark_all(7), 2);
    let third = enter(&mut spot, 7, None);

    // whatever the others do, it goes back to waiting
    assert_eq!(spot.park_inner(&third, NOTIFIED), ParkAction::ReadClock);
    let fourth = enter(&mut spot, 7, Some(100));
    assert_eq!(spot.park_inner(&first, NOTIFIED), UNPARKED);
    assert_eq!(spot.park_inner(&third, NOTIFIED), ParkAction::ReadClock);
    assert_eq!(spot.park_inner(&fourth, OUT_OF_TIME), TIMED_OUT);
    assert_eq!(spot.park_inner(&second, OUT_OF_TIME), TIMED_OUT);
    assert_eq!(spot.unpark(7, 0), 0);
    assert_eq!(spot.park_inner(&third, NOTIFIED), ParkAction::ReadClock);

    assert_eq!(spot.unpark(7, 1), 1);
    assert_eq!(spot.park_inner(&third, NOTIFIED), UNPARKED);
}

#[test]
fn threads_that_leave_make_nobody_else_count_again() {
    let mut spot = ParkingSpot::default();
    let threads: Vec<Parked> = (0..3).map(|_| enter(&mut spot, 7, None)).collect();
    assert_eq!(spot.unpark_all(7), 3);
    for (index, event) in [(1, OUT_OF_TIME), (2, NOTIFIED), (0, NOTIFIED)] {
        assert_eq!(spot.unpark(7, 5), 0);
        assert_eq!(spot.unpark_all(7), 0);
        assert!(spot.park_inner(&threads[index], event) != ParkAction::ReadClock);
    }
    assert_eq!(spot.unpark_all(7), 0);
    assert_eq!(spot.num_parked(7), 0);
}

#[test]
fn with_lot_finds_a_spot_while_threads_are_parked() {
    let mut spot = ParkingSpot::default();
    assert_eq!(spot.with_lot(7, |lot| (lot, 1)), None);
    let first = enter(&mut spot, 7, None);
    let second = enter(&mut spot, 7, None);
    let count = spot.with_lot(7, |lot| {
        let count = lot.num_parked();
        (lot, count)
    });
    assert_eq!(count, Some(2));
    assert_eq!(spot.with_lot(8, |lot| (lot, 1)), None);
    assert_eq!(spot.unpark_all(7), 2);
    assert_eq!(spot.park_inner(&second, NOTIFIED), UNPARKED);
    assert_eq!(spot.with_lot(7, |lot| (lot, 1)), Some(1));
    assert_eq!(spot.park_inner(&first, NOTIFIED), UNPARKED);
    assert_eq!(spot.with_lot(7, |lot| (lot, 1)), None);
}
