//! Fixed-capacity object pools with a pluggable free-slot backend.
//!
//! Two pool variants share one free-slot interface ([`FreeSlots`]):
//!
//! - [`BoxPool`]: `allocate(value)` writes a value into a free slot; releasing the
//!   guard drops the value and frees the slot.
//! - [`ObjectPool`]: slots are initialised once; `request()` lends a slot without
//!   writing to it, and releasing the guard keeps the data for the next borrower.
//!
//! The free-index collection is kept apart from the slot storage, so the
//! layout of the slots is not affected by the bookkeeping.

pub mod free_slots;

pub mod cas;
pub mod critical;

mod boxed;
mod object;

pub use boxed::{BoxGuard, BoxPool, StaticBoxPool};
pub use free_slots::{FillError, FreeSlots};
pub use object::{ObjectGuard, ObjectPool, StaticObjectPool};

