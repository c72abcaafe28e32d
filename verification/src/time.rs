//! Time as plain integers.
//!
//! A [`Duration`] is a whole number of nanoseconds and an [`Instant`] a number
//! of nanoseconds since some fixed origin of the process's clock.  128 bits
//! hold every span and every clock reading the operating system can give.
use vstd::prelude::*;

verus! {

/// A span of time.
#[derive(Debug, Clone, Copy, PartialEq, Eq, Structural, Hash, PartialOrd, Ord)]
pub struct Duration {
    pub nanos: u128,
}

/// A reading of the monotonic clock.
#[derive(Debug, Clone, Copy, PartialEq, Eq, Structural, Hash, PartialOrd, Ord)]
pub struct Instant {
    pub nanos: u128,
}

impl Duration {
    /// The empty span.
    pub fn zero() -> (d: Duration)
        ensures
            d.nanos == 0,
    {
        Duration { nanos: 0 }
    }

    pub fn from_nanos(n: u64) -> (d: Duration)
        ensures
            d.nanos == n,
    {
        Duration { nanos: n as u128 }
    }

    pub fn from_micros(us: u64) -> (d: Duration)
        ensures
            d.nanos == us * 1_000,
    {
        Duration { nanos: us as u128 * 1_000 }
    }

    pub fn from_millis(ms: u64) -> (d: Duration)
        ensures
            d.nanos == ms * 1_000_000,
    {
        Duration { nanos: ms as u128 * 1_000_000 }
    }

    pub fn from_secs(s: u64) -> (d: Duration)
        ensures
            d.nanos == s * 1_000_000_000,
    {
        Duration { nanos: s as u128 * 1_000_000_000 }
    }
}

impl Instant {
    pub fn from_nanos(nanos: u128) -> (t: Instant)
        ensures
            t.nanos == nanos,
    {
        Instant { nanos }
    }

    /// The instant `d` later; the clock has room for it.
    pub fn plus(&self, d: Duration) -> (t: Instant)
        requires
            self.nanos + d.nanos <= u128::MAX,
        ensures
            t.nanos == self.nanos + d.nanos,
    {
        Instant { nanos: self.nanos + d.nanos }
    }

    /// The time from `earlier` to `self`, or zero if `earlier` is the later one.
    pub fn duration_since(&self, earlier: Instant) -> (d: Duration)
        ensures
            d.nanos == (if self.nanos >= earlier.nanos {
                self.nanos - earlier.nanos
            } else {
                0
            }),
    {
        if self.nanos >= earlier.nanos {
            Duration { nanos: self.nanos - earlier.nanos }
        } else {
            Duration { nanos: 0 }
        }
    }
}

} // verus!
