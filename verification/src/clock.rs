//! The monotonic clock by which writes to a cell are ordered.

use std::time::{Duration, Instant};
use vstd::prelude::*;

verus! {

/// A point in time of the monotonic clock.
#[verifier::external_type_specification]
#[verifier::external_body]
pub struct ExInstant(Instant);

/// `Instant::now` reads the clock: nothing is known of what it returns.
pub assume_specification[ Instant::now ]() -> (now: Instant);

/// `Instant::elapsed` reads the clock: nothing is known of what it returns.
pub assume_specification[ Instant::elapsed ](instant: &Instant) -> (elapsed: Duration);

/// `Duration::as_nanos` gives the length of a duration in nanoseconds.
pub assume_specification[ Duration::as_nanos ](duration: &Duration) -> (nanos: u128);

/// A clock that counts the nanoseconds since it was started, and that never
/// shows less than it has shown or has been shown before.
#[derive(Debug)]
pub struct Clock {
    started: Instant,
    latest: u64,
}

impl Clock {
    /// The latest time that the clock has shown or has been shown.
    pub closed spec fn latest(&self) -> u64 {
        self.latest
    }

    /// Starts a clock.
    pub fn start() -> (clock: Clock)
        ensures
            clock.latest() == 0,
    {
        Clock { started: Instant::now(), latest: 0 }
    }

    /// The time: the nanoseconds since the clock was started, or the
    /// largest number where they exceed it; and no less than the latest time
    /// so far.
    pub fn now(&mut self) -> (time: u64)
        ensures
            time >= old(self).latest(),
            final(self).latest() == time,
    {
        let nanos: u128 = self.started.elapsed().as_nanos();
        let read: u64 = if nanos > 0xffff_ffff_ffff_ffff {
            0xffff_ffff_ffff_ffff
        } else {
            nanos as u64
        };
        if read > self.latest {
            self.latest = read;
        }
        self.latest
    }

    /// Shows the clock a time: if it is later than the latest so far, it is
    /// the latest from now on.
    pub fn advance(&mut self, time: u64)
        ensures
            final(self).latest() == if time > old(self).latest() {
                time
            } else {
                old(self).latest()
            },
    {
        if time > self.latest {
            self.latest = time;
        }
    }
}

} // verus!
