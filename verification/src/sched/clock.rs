//! The logical clock: a tick counter with one owner and any number of
//! readers.

use std::sync::{Arc, RwLock, RwLockWriteGuard};
use vstd::prelude::*;

verus! {

/// A lock of the standard library around a value.
#[verifier::external_type_specification]
#[verifier::external_body]
#[verifier::reject_recursive_types(T)]
pub struct ExRwLock<T: ?Sized>(RwLock<T>);

/// The guard that holds such a lock for writing.
#[verifier::external_type_specification]
#[verifier::external_body]
#[verifier::reject_recursive_types(T)]
pub struct ExRwLockWriteGuard<'a, T: ?Sized + 'a>(RwLockWriteGuard<'a, T>);

/// The tick that follows `now`. The counter never decreases: at the largest
/// tick it stays where it is.
pub open spec fn next_tick(now: nat) -> nat {
    if now < u128::MAX {
        now + 1
    } else {
        now
    }
}

/// Computes the tick that follows `now`.
pub fn advance(now: u128) -> (next: u128)
    ensures
        next == next_tick(now as nat),
        next >= now,
{
    if now < u128::MAX {
        now + 1
    } else {
        now
    }
}

/// Calls `RwLock::new`: a fresh lock around `start`. Nothing is stated of
/// it, since a lock's content is not a value that contracts can speak of.
#[verifier::external_body]
fn new_counter(start: u128) -> RwLock<u128> {
    RwLock::new(start)
}

/// Calls `Arc::clone`: one more handle on the same lock.
#[verifier::external_body]
fn share_counter(counter: &Arc<RwLock<u128>>) -> Arc<RwLock<u128>> {
    Arc::clone(counter)
}

/// Calls `RwLock::read` and copies the value out. The owner of the clock
/// may write between two calls, so nothing is stated of the result. A
/// poisoned lock is read like any other.
#[verifier::external_body]
fn read_counter(counter: &RwLock<u128>) -> u128 {
    match counter.read() {
        Ok(guard) => *guard,
        Err(poisoned) => *poisoned.into_inner(),
    }
}

/// Calls `RwLock::write`: waits for exclusive access and returns the guard
/// that holds it. A poisoned lock is taken like any other.
#[verifier::external_body]
fn lock_counter<'a>(counter: &'a RwLock<u128>) -> RwLockWriteGuard<'a, u128> {
    match counter.write() {
        Ok(guard) => guard,
        Err(poisoned) => poisoned.into_inner(),
    }
}

/// Stores `value` under a write guard (`DerefMut::deref_mut`).
#[verifier::external_body]
fn store_guarded(guard: &mut RwLockWriteGuard<'_, u128>, value: u128) {
    **guard = value;
}

/// The logical clock: a tick counter that starts at zero and never
/// decreases. A clock has one owner, who alone advances it. What the owner
/// counts is published for the readers that were made from the clock.
pub struct Clock {
    /// The tick as the readers see it: what was published last.
    published: Arc<RwLock<u128>>,
    /// The tick as the owner counts it.
    ticks: u128,
}

impl View for Clock {
    type V = nat;

    closed spec fn view(&self) -> nat {
        self.ticks as nat
    }
}

impl Clock {
    /// A clock of its own, at tick zero.
    pub fn new() -> (clock: Self)
        ensures
            clock@ == 0,
    {
        Self { published: Arc::new(new_counter(0)), ticks: 0 }
    }

    /// Advances the clock by one tick and publishes the new tick, as one
    /// exclusive write. At the largest tick the clock stays where it is.
    pub fn tick(&mut self)
        ensures
            final(self)@ == next_tick(old(self)@),
    {
        let next = advance(self.ticks);
        self.ticks = next;
        let mut guard = lock_counter(&self.published);
        store_guarded(&mut guard, next);
    }

    /// The current tick.
    pub fn time(&self) -> (now: u128)
        ensures
            now == self@,
    {
        self.ticks
    }

    /// A reader of this clock.
    pub(crate) fn reader(&self) -> ClockReader {
        ClockReader { published: share_counter(&self.published) }
    }
}

/// A read-only handle on a clock that someone else owns.
pub(crate) struct ClockReader {
    published: Arc<RwLock<u128>>,
}

impl ClockReader {
    /// The tick that the clock's owner published last. The owner may
    /// advance the clock at any moment, so nothing is known of the value
    /// but its type.
    pub(crate) fn time(&self) -> u128 {
        read_counter(&self.published)
    }
}

} // verus!
