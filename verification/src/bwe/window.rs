//! Counts acknowledgements per window of time, for a rough rate that is only
//! logged.
use crate::time::{Duration, Instant};
use vstd::prelude::*;

verus! {

/// How long a window stays open at least, in nanoseconds.
pub const WINDOW_NANOS: u128 = 200_000_000;

/// Acknowledgements below which there is no estimate.
pub const MIN_SAMPLES_FOR_ESTIMATE: u64 = 3;

/// Bits that an acknowledged datagram carries, roughly.
pub const AVG_ACK_PAYLOAD_BITS: u64 = 32_768;

/// What was seen in a window.
#[derive(Debug, Clone, Copy, PartialEq, Eq, Structural)]
pub struct Observation {
    pub count: u32,
    pub elapsed: Duration,
}

/// The window that is open.
#[derive(Debug, Clone, Copy, PartialEq, Eq, Structural)]
pub struct RateWindow {
    /// When it was opened.
    pub start: Instant,
    /// Acknowledgements in it.
    pub count: u32,
    /// Acknowledgements in all windows.
    pub samples_seen: u64,
}

/// The sum, as far as the type goes.
pub open spec fn up_to(n: int, max: int) -> int {
    if n < max {
        n
    } else {
        max
    }
}

/// The time from `start` to `now`, none if `now` is earlier.
pub open spec fn elapsed(start: Instant, now: Instant) -> Duration {
    if now.nanos > start.nanos {
        Duration { nanos: (now.nanos - start.nanos) as u128 }
    } else {
        Duration { nanos: 0 }
    }
}

impl RateWindow {
    /// `n` acknowledgements arrived: they belong to the open window.
    pub open spec fn counted(self, n: usize) -> RateWindow {
        RateWindow {
            count: up_to(self.count + (n as int) % 0x1_0000_0000, u32::MAX as int) as u32,
            samples_seen: up_to(self.samples_seen + n, u64::MAX as int) as u64,
            ..self
        }
    }

    /// Whether the window is over at `now`.
    pub open spec fn is_over(self, now: Instant) -> bool {
        elapsed(self.start, now).nanos >= WINDOW_NANOS
    }

    /// A window that was opened at `now`.
    pub fn new(now: Instant) -> (w: Self)
        ensures
            w == (RateWindow { start: now, count: 0, samples_seen: 0 }),
    {
        RateWindow { start: now, count: 0, samples_seen: 0 }
    }

    /// Counts a batch of `n` acknowledgements.  A window that is over with it
    /// is closed and gives its observation, if enough was seen so far; an
    /// empty batch changes nothing.
    pub fn add(&mut self, n: usize, now: Instant) -> (seen: Option<Observation>)
        ensures
            n == 0 ==> *final(self) == *old(self) && seen is None,
            n > 0 ==> ({
                let w = old(self).counted(n);
                &&& *final(self) == (if w.is_over(now) {
                    RateWindow { start: now, count: 0, ..w }
                } else {
                    w
                })
                &&& seen == (if w.is_over(now) && w.count > 0 && w.samples_seen
                    >= MIN_SAMPLES_FOR_ESTIMATE {
                    Some(Observation { count: w.count, elapsed: elapsed(w.start, now) })
                } else {
                    None
                })
            }),
    {
        if n == 0 {
            return None;
        }
        self.samples_seen = self.samples_seen.saturating_add(n as u64);
        self.count = self.count.saturating_add((n as u64 % 0x1_0000_0000) as u32);
        let nanos: u128 = if now.nanos > self.start.nanos {
            now.nanos - self.start.nanos
        } else {
            0
        };
        if nanos < WINDOW_NANOS {
            return None;
        }
        let count: u32 = self.count;
        self.start = now;
        self.count = 0;
        if count > 0 && self.samples_seen >= MIN_SAMPLES_FOR_ESTIMATE {
            Some(Observation { count, elapsed: Duration { nanos } })
        } else {
            None
        }
    }
}

/// Batches add up: two in one window count as one of their size.
pub proof fn batches_add_up(w: RateWindow, a: usize, b: usize)
    requires
        a + b < 0x1_0000_0000,
    ensures
        w.counted(a).counted(b) == w.counted((a + b) as usize),
{
}

} // verus!
