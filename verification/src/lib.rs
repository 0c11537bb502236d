//! The bookkeeping of thread wait and notify primitives.
//!
//! There are two main operations:
//!
//! - *Parking* refers to suspending the thread while simultaneously enqueuing it on a queue
//!   keyed by some address.
//! - *Unparking* refers to dequeuing a thread from a queue keyed by some address and resuming
//!   it.
//!
//! A [`ParkingSpot`] is the table that is kept behind a lock: it knows which threads are parked
//! under each key and which releases unparks have granted them. A thread that parks enters it
//! with [`ParkingSpot::park`] and then goes through [`ParkingSpot::park_inner`], which says
//! when to wait and when to return, until it is told to return. Other threads release it with
//! [`ParkingSpot::unpark`] and [`ParkingSpot::unpark_all`].
//!
//! [`model`] says what each operation does to the table. [`laws`] relates the operations to
//! one another; [`system`], [`runs`], [`rounds`] and [`wakeups`] say what holds of all the
//! threads around a table.
pub mod condvar;
pub mod laws;
pub mod model;
pub mod releases;
pub mod rounds;
pub mod runs;
pub mod spot;
pub mod step;
pub mod system;
pub mod wakeups;

pub use spot::{Parked, ParkingSpot, Spot};
pub use step::{ParkAction, ParkEvent, ParkResult};
