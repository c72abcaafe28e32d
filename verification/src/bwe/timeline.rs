//! Reconstructs a monotonic timeline from the low bits of a clock, as they are
//! carried on the wire.
//!
//! Steps backward are routine: the overlap entries of an acknowledgement batch
//! are older than the fresh entry that goes before them.  So a sample is read
//! as the time nearest to the one before.
use vstd::prelude::*;

verus! {

/// Microseconds until a 32-bit clock wraps, about 71.6 minutes.
pub const PERIOD: i64 = 0x1_0000_0000;

/// Half of it.  A larger step in either direction is read as a wrap.
pub const HALF_PERIOD: i64 = 0x8000_0000;

/// Milliseconds until a 16-bit clock wraps.
pub const PERIOD_16: i64 = 0x1_0000;

/// The time that has the low part `lo` and lies nearest to `last`, for a clock
/// that wraps after `period`.  Of two that are equally near it is the one in
/// the period of `last`.
pub open spec fn nearest(last: int, lo: int, period: int) -> int {
    let candidate = last - last % period + lo;
    if candidate - last > period / 2 {
        candidate - period
    } else if last - candidate > period / 2 {
        candidate + period
    } else {
        candidate
    }
}

/// Computes `nearest`.
fn nearest_to(last: i64, lo: i64, period: i64) -> (t: i64)
    requires
        period == PERIOD || period == PERIOD_16,
        0 <= lo < period,
        i64::MIN + 2 * PERIOD <= last <= i64::MAX - 2 * PERIOD,
    ensures
        t == nearest(last as int, lo as int, period as int),
{
    let offset: i64 = if last >= 0 {
        last % period
    } else {
        // Counted up from the start of a period below zero.
        period - 1 - (-(last + 1)) % period
    };
    proof {
        if last < 0 {
            below_zero(last as int, period as int);
        }
    }
    assert(offset == last as int % period as int);
    let candidate: i64 = last - offset + lo;
    if candidate - last > period / 2 {
        candidate - period
    } else if last - candidate > period / 2 {
        candidate + period
    } else {
        candidate
    }
}

/// The remainder of a negative number.
proof fn below_zero(a: int, p: int)
    requires
        a < 0,
        p == PERIOD || p == PERIOD_16,
    ensures
        a % p == p - 1 - (-(a + 1)) % p,
{
    let n = -(a + 1);
    let q = n / p;
    assert(n == q * p + n % p) by (nonlinear_arith)
        requires
            p > 0,
            q == n / p,
    ;
    assert(a == -(q + 1) * p + (p - 1 - n % p)) by (nonlinear_arith)
        requires
            n == q * p + n % p,
            a == -n - 1,
    ;
    vstd::arithmetic::div_mod::lemma_fundamental_div_mod_converse(
        a,
        p,
        -(q + 1),
        p - 1 - n % p,
    );
}

/// Unwraps one series of 32-bit microsecond samples.  The series of sending
/// and of arrival come from different clocks and need one each.
#[derive(Debug)]
pub struct Lo32Timeline {
    last: Option<i64>,
}

/// Unwraps one series of 16-bit millisecond samples.
#[derive(Debug, Clone, Copy)]
pub struct Lo16Timeline {
    last: Option<i64>,
}

/// There is room for another sample.
pub open spec fn has_room(position: Option<i64>) -> bool {
    position matches Some(p) ==> i64::MIN + 2 * PERIOD <= p <= i64::MAX - 2 * PERIOD
}

/// The position after another sample; it can lie before zero.
pub open spec fn next_position(position: Option<i64>, lo: int, period: int) -> int {
    match position {
        Some(p) => nearest(p as int, lo, period),
        None => lo,
    }
}

/// Zero for what lies before zero.
pub open spec fn floored(t: int) -> int {
    if t >= 0 {
        t
    } else {
        0
    }
}

impl Lo32Timeline {
    /// The last time, if there was a sample.
    pub closed spec fn position(&self) -> Option<i64> {
        self.last
    }

    /// The time of the next sample.  The first one anchors the timeline; a
    /// time before zero is given as zero, but remembered as it is.
    pub fn unwrap_us(&mut self, lo32: u32) -> (us: u64)
        requires
            has_room(old(self).position()),
        ensures
            us == floored(next_position(old(self).position(), lo32 as int, PERIOD as int)),
            final(self).position() is Some,
            final(self).position()->0 == next_position(
                old(self).position(),
                lo32 as int,
                PERIOD as int,
            ),
    {
        let t: i64 = match self.last {
            Some(last) => nearest_to(last, lo32 as i64, PERIOD),
            None => lo32 as i64,
        };
        self.last = Some(t);
        if t >= 0 {
            t as u64
        } else {
            0
        }
    }
}

impl Default for Lo32Timeline {
    fn default() -> (t: Self)
        ensures
            t.position() is None,
    {
        Lo32Timeline { last: None }
    }
}

impl Lo16Timeline {
    /// The last time, if there was a sample.
    pub closed spec fn position(&self) -> Option<i64> {
        self.last
    }

    /// The time of the next sample, as with microseconds.
    pub fn unwrap_ms(&mut self, lo16: u16) -> (ms: u64)
        requires
            has_room(old(self).position()),
        ensures
            ms == floored(next_position(old(self).position(), lo16 as int, PERIOD_16 as int)),
            final(self).position() is Some,
            final(self).position()->0 == next_position(
                old(self).position(),
                lo16 as int,
                PERIOD_16 as int,
            ),
    {
        let t: i64 = match self.last {
            Some(last) => nearest_to(last, lo16 as i64, PERIOD_16),
            None => lo16 as i64,
        };
        self.last = Some(t);
        if t >= 0 {
            t as u64
        } else {
            0
        }
    }
}

impl Default for Lo16Timeline {
    fn default() -> (t: Self)
        ensures
            t.position() is None,
    {
        Lo16Timeline { last: None }
    }
}

/// A sample is read as a time that has its low part, and that is no further
/// than half a period from the last.
pub proof fn nearest_is_near(last: int, lo: int, period: int)
    requires
        period == PERIOD || period == PERIOD_16,
        0 <= lo < period,
    ensures
        nearest(last, lo, period) % period == lo,
        -(period / 2) <= nearest(last, lo, period) - last <= period / 2,
{
    let q = last / period;
    let t = nearest(last, lo, period);
    assert(last == q * period + last % period) by (nonlinear_arith)
        requires
            period > 0,
            q == last / period,
    ;
    let k = if last - last % period + lo - last > period / 2 {
        q - 1
    } else if last - (last - last % period + lo) > period / 2 {
        q + 1
    } else {
        q
    };
    assert(t == k * period + lo) by (nonlinear_arith)
        requires
            last == q * period + last % period,
            t == last - last % period + lo + (k - q) * period,
    ;
    vstd::arithmetic::div_mod::lemma_fundamental_div_mod_converse(t, period, k, lo);
}

/// The clock is reconstructed: if the true time of a sample is less than half
/// a period from the last, forward or backward and across any wrap, it is what
/// the low part is read as.
pub proof fn true_time_is_recovered(last: int, time: int, period: int)
    requires
        period == PERIOD || period == PERIOD_16,
        -(period / 2) < time - last < period / 2,
    ensures
        nearest(last, time % period, period) == time,
{
    let lo = time % period;
    assert(0 <= lo < period);
    nearest_is_near(last, lo, period);
    let t = nearest(last, lo, period);
    assert(t % period == time % period);
    // Two times with the same low part are whole periods apart.
    let a = t / period;
    let b = time / period;
    assert(t == a * period + lo && time == b * period + lo) by (nonlinear_arith)
        requires
            period > 0,
            a == t / period,
            b == time / period,
            lo == t % period,
            lo == time % period,
    ;
    assert(a == b) by (nonlinear_arith)
        requires
            period > 0,
            t == a * period + lo,
            time == b * period + lo,
            -period < t - time < period,
    ;
}

} // verus!
