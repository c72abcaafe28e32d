//! Rolling acknowledgement latency.
//!
//! Keeps the most recent 256 samples and answers their 95th percentile, from
//! which the retransmission deadline is derived.
use crate::time::Duration;
use vstd::prelude::*;

verus! {

/// Samples required before the window's percentile counts as a measurement.
pub const MIN_SAMPLES: usize = 32;

/// Number of most recent samples retained.
pub const WINDOW: usize = 256;

/// The most recent latencies, in microseconds.
#[derive(Debug, Clone)]
pub struct AckLatencyTracker {
    samples: [u64; WINDOW],
    /// Where the next sample goes.
    next: usize,
    /// Number of samples held.
    len: usize,
}

/// Number of samples that are at most `v`.
pub open spec fn count_at_most(s: Seq<u64>, v: u64) -> nat
    decreases s.len(),
{
    if s.len() == 0 {
        0
    } else {
        count_at_most(s.drop_last(), v) + (if s.last() <= v {
            1nat
        } else {
            0nat
        })
    }
}

/// The nearest rank of the 95th percentile of `n` samples: 95 n / 100,
/// rounded up.
pub open spec fn rank95(n: nat) -> nat {
    ((95 * n + 99) / 100) as nat
}

/// `v` is the 95th percentile: the smallest sample that at least the ranked
/// number of samples do not exceed.
pub open spec fn is_p95(s: Seq<u64>, v: u64) -> bool {
    &&& s.contains(v)
    &&& count_at_most(s, v) >= rank95(s.len())
    &&& forall|i: int|
        0 <= i < s.len() && #[trigger] s[i] < v ==> count_at_most(s, s[i]) < rank95(s.len())
}

impl View for AckLatencyTracker {
    type V = Seq<u64>;

    /// The samples held, oldest first.
    closed spec fn view(&self) -> Seq<u64> {
        if self.len < WINDOW {
            self.samples@.subrange(0, self.len as int)
        } else {
            self.samples@.subrange(self.next as int, WINDOW as int) + self.samples@.subrange(
                0,
                self.next as int,
            )
        }
    }
}

impl AckLatencyTracker {
    pub closed spec fn wf(&self) -> bool {
        &&& self.next < WINDOW
        &&& self.len <= WINDOW
        &&& self.len < WINDOW ==> self.next == self.len
    }

    pub fn new() -> (t: Self)
        ensures
            t.wf(),
            t@ == Seq::<u64>::empty(),
    {
        let t = AckLatencyTracker { samples: [0; WINDOW], next: 0, len: 0 };
        assert(t@ =~= Seq::<u64>::empty());
        t
    }

    /// Adds a sample; a full window loses its oldest.
    pub fn record(&mut self, latency_us: u64)
        requires
            old(self).wf(),
        ensures
            final(self).wf(),
            final(self)@ == (if old(self)@.len() < WINDOW {
                old(self)@.push(latency_us)
            } else {
                old(self)@.skip(1).push(latency_us)
            }),
    {
        self.samples[self.next] = latency_us;
        self.next = (self.next + 1) % WINDOW;
        if self.len < WINDOW {
            self.len = self.len + 1;
        }
        proof {
            if old(self).len < WINDOW {
                if self.len < WINDOW {
                    assert(self@ =~= old(self)@.push(latency_us));
                } else {
                    assert(self.next == 0);
                    assert(self@ =~= old(self)@.push(latency_us));
                }
            } else {
                assert(self@ =~= old(self)@.skip(1).push(latency_us));
            }
        }
    }

    /// Number of samples held.
    pub fn len(&self) -> (n: usize)
        requires
            self.wf(),
        ensures
            n == self@.len(),
            n <= WINDOW,
    {
        self.len
    }

    pub fn is_empty(&self) -> (b: bool)
        requires
            self.wf(),
        ensures
            b == (self@.len() == 0),
    {
        self.len == 0
    }

    /// The 95th percentile of the window by nearest rank, or none while there
    /// are too few samples to tell.
    pub fn measured_p95(&self) -> (d: Option<Duration>)
        requires
            self.wf(),
        ensures
            match d {
                Some(d) => self@.len() >= MIN_SAMPLES && exists|v: u64| #[trigger]
                    is_p95(self@, v) && d.nanos == v * 1000,
                None => self@.len() < MIN_SAMPLES,
            },
    {
        if self.len < MIN_SAMPLES {
            return None;
        }
        let n: usize = self.len;
        let rank: usize = (95 * n + 99) / 100;
        let ghost s = self.samples@.subrange(0, n as int);
        let mut best: u64 = 0;
        let mut found: bool = false;
        let mut i: usize = 0;
        while i < n
            invariant
                i <= n,
                1 <= n <= WINDOW,
                n == self.len,
                rank == rank95(n as nat),
                s == self.samples@.subrange(0, n as int),
                found ==> s.contains(best) && count_at_most(s, best) >= rank,
                forall|j: int|
                    0 <= j < i && count_at_most(s, #[trigger] s[j]) >= rank ==> found && best
                        <= s[j],
            decreases n - i,
        {
            let v: u64 = self.samples[i];
            assert(s[i as int] == v);
            let c: usize = count_in(&self.samples, n, v);
            if c >= rank && (!found || v < best) {
                best = v;
                found = true;
            }
            i = i + 1;
        }
        proof {
            largest_covers_all(s);
            let m = choose|m: int|
                0 <= m < s.len() && #[trigger] count_at_most(s, s[m]) == s.len();
            assert(count_at_most(s, s[m]) >= rank);
            assert(is_p95(s, best)) by {
                assert forall|k: int| 0 <= k < s.len() && #[trigger] s[k] < best implies
                    count_at_most(s, s[k]) < rank95(s.len()) by {}
            }
            self.percentile_ignores_rotation(best);
        }
        Some(Duration::from_micros(best))
    }

    /// The 95th percentile of the window, zero while there are too few samples
    /// to tell: "not known yet" rather than "no latency".
    pub fn p95(&self) -> (d: Duration)
        requires
            self.wf(),
        ensures
            self@.len() < MIN_SAMPLES ==> d.nanos == 0,
            self@.len() >= MIN_SAMPLES ==> exists|v: u64| #[trigger]
                is_p95(self@, v) && d.nanos == v * 1000,
    {
        match self.measured_p95() {
            Some(d) => d,
            None => Duration::zero(),
        }
    }

    /// The ring buffer holds the same samples as the window in another order,
    /// and the percentile does not depend on the order.
    proof fn percentile_ignores_rotation(&self, v: u64)
        requires
            self.wf(),
            is_p95(self.samples@.subrange(0, self.len as int), v),
        ensures
            is_p95(self@, v),
    {
        if self.len == WINDOW {
            let a = self.samples@.subrange(0, self.next as int);
            let b = self.samples@.subrange(self.next as int, WINDOW as int);
            assert(self.samples@.subrange(0, self.len as int) =~= a + b);
            assert(self@ =~= b + a);
            percentile_of_swapped(a, b, v);
        }
    }
}

impl Default for AckLatencyTracker {
    fn default() -> (t: Self)
        ensures
            t.wf(),
            t@ == Seq::<u64>::empty(),
    {
        AckLatencyTracker::new()
    }
}

/// Counts the samples among the first `n` that are at most `v`.
fn count_in(samples: &[u64; WINDOW], n: usize, v: u64) -> (c: usize)
    requires
        n <= WINDOW,
    ensures
        c == count_at_most(samples@.subrange(0, n as int), v),
        c <= n,
{
    let mut c: usize = 0;
    let mut i: usize = 0;
    while i < n
        invariant
            i <= n <= WINDOW,
            c <= i,
            c == count_at_most(samples@.subrange(0, i as int), v),
        decreases n - i,
    {
        proof {
            let s = samples@.subrange(0, i + 1);
            assert(s.drop_last() =~= samples@.subrange(0, i as int));
        }
        if samples[i] <= v {
            c = c + 1;
        }
        i = i + 1;
    }
    c
}

/// Counting splits over concatenation.
pub proof fn count_concat(a: Seq<u64>, b: Seq<u64>, v: u64)
    ensures
        count_at_most(a + b, v) == count_at_most(a, v) + count_at_most(b, v),
    decreases b.len(),
{
    if b.len() == 0 {
        assert(a + b =~= a);
    } else {
        assert((a + b).drop_last() =~= a + b.drop_last());
        count_concat(a, b.drop_last(), v);
    }
}

/// The percentile does not depend on the order in which two stretches of
/// samples arrived.
pub proof fn percentile_of_swapped(a: Seq<u64>, b: Seq<u64>, v: u64)
    requires
        is_p95(a + b, v),
    ensures
        is_p95(b + a, v),
{
    let s = a + b;
    let t = b + a;
    count_concat(a, b, v);
    count_concat(b, a, v);
    let k = choose|k: int| 0 <= k < s.len() && s[k] == v;
    if k < a.len() {
        assert(t[b.len() + k] == v);
    } else {
        assert(t[k - a.len()] == v);
    }
    assert forall|i: int| 0 <= i < t.len() && #[trigger] t[i] < v implies count_at_most(t, t[i])
        < rank95(t.len()) by {
        let j = if i < b.len() {
            a.len() + i
        } else {
            i - b.len()
        };
        assert(s[j] == t[i]);
        count_concat(a, b, t[i]);
        count_concat(b, a, t[i]);
    }
}

/// Some sample is not exceeded by any: all samples are at most it.
proof fn largest_covers_all(s: Seq<u64>)
    requires
        s.len() > 0,
    ensures
        exists|m: int| 0 <= m < s.len() && #[trigger] count_at_most(s, s[m]) == s.len(),
    decreases s.len(),
{
    if s.len() == 1 {
        assert(s.drop_last() =~= Seq::<u64>::empty());
        assert(count_at_most(s.drop_last(), s[0]) == 0);
        assert(count_at_most(s, s[0]) == s.len());
    } else {
        let front = s.drop_last();
        largest_covers_all(front);
        let m = choose|m: int|
            0 <= m < front.len() && #[trigger] count_at_most(front, front[m]) == front.len();
        if s.last() <= front[m] {
            assert(count_at_most(s, s[m]) == s.len());
        } else {
            count_grows(front, front[m], s.last());
            assert(count_at_most(s, s[s.len() - 1]) == s.len());
        }
    }
}

/// A larger bound covers at least as many samples, and never more than all.
proof fn count_grows(s: Seq<u64>, u: u64, v: u64)
    requires
        u <= v,
    ensures
        count_at_most(s, u) <= count_at_most(s, v) <= s.len(),
    decreases s.len(),
{
    if s.len() > 0 {
        count_grows(s.drop_last(), u, v);
    }
}

/// There is only one 95th percentile.
pub proof fn p95_is_unique(s: Seq<u64>, u: u64, v: u64)
    requires
        is_p95(s, u),
        is_p95(s, v),
    ensures
        u == v,
{
    let i = choose|i: int| 0 <= i < s.len() && s[i] == u;
    let j = choose|j: int| 0 <= j < s.len() && s[j] == v;
    if u < v {
        assert(count_at_most(s, s[i]) < rank95(s.len()));
    } else if v < u {
        assert(count_at_most(s, s[j]) < rank95(s.len()));
    }
}

/// How many samples are at most `v`.
pub proof fn samples_up_to_are_counted(s: Seq<u64>, t: Seq<u64>, x: u64, v: u64)
    ensures
        count_at_most(s + t, v) == count_at_most(s, v) + count_at_most(t, v),
        x <= v ==> count_at_most(seq![x], v) == 1,
        x > v ==> count_at_most(seq![x], v) == 0,
    decreases t.len(),
{
    reveal_with_fuel(count_at_most, 2);
    assert(seq![x].drop_last() =~= Seq::empty());
    assert(seq![x].last() == x);
    if t.len() == 0 {
        assert(s + t =~= s);
    } else {
        assert((s + t).drop_last() =~= s + t.drop_last());
        samples_up_to_are_counted(s, t.drop_last(), x, v);
    }
}

/// The 95th percentile: at least 95 of a hundred samples are no slower, and of
/// no faster sample this holds.
pub proof fn ninety_five_percent_are_no_slower(s: Seq<u64>, v: u64, i: int)
    requires
        is_p95(s, v),
        0 <= i < s.len(),
    ensures
        100 * count_at_most(s, v) >= 95 * s.len(),
        s[i] < v ==> 100 * count_at_most(s, s[i]) < 95 * s.len(),
{
}

} // verus!
