# parking_spot

Thread wait and notify primitives, with their bookkeeping verified in Verus.

There are two main operations that can be performed:

- *Parking* refers to suspending the thread while simultaneously enqueuing it
on a queue keyed by some address.
- *Unparking* refers to dequeuing a thread from a queue keyed by some address
and resuming it.

## Layout

- `src/` is the library. A `ParkingSpot` is the table of parked threads. Every
decision is taken on it: whether a thread parks, what it does next when it looks
at the clock or wakes up, how many threads an unpark releases, and whom it
notifies.
  - `model.rs` states what each operation does to the table.
  - `step.rs` and `spot.rs` hold the types and the operations.
  - `condvar.rs` holds what is taken on trust of `std::sync`.
  - `laws.rs` relates the operations to one another.
  - `system.rs` puts many threads around one table. `releases.rs`, `runs.rs`,
  `rounds.rs` and `wakeups.rs` prove what holds of them, in whatever order they
  park, wake up, run out of time and unpark one another.
- `app/` puts the table behind a `Mutex` and blocks the threads on condition
variables.
- `tests/` runs the table, one operation at a time, with many threads played in
shuffled orders, and with the clock.

## What an unpark does

An unpark grants as many releases as it counts threads, and notifies as many. A
release is for the threads that were parked at the unpark: threads are numbered
as they park, and a thread that parks later cannot use it. A thread that wakes
up and finds a release uses up the oldest one that is for it and returns; if
there is none, it goes back to waiting.

So a thread that was parked when all threads under its key were unparked returns
as soon as it wakes up, whatever the other threads do. After an unpark of some
threads, as many of those that were parked then can return; which ones is up to
the notifications, and to threads among them that wake up by themselves or run
out of time.

License: MIT OR Apache-2.0
