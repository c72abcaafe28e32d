//! Token-bucket bandwidth cap for tests and benchmarks.
use crate::time::Instant;
use vstd::prelude::*;

verus! {

/// Nanoseconds in a second.
pub const NANOS_PER_SEC: u128 = 1_000_000_000;

/// Lets a number of bytes per second through, and up to one second's worth at
/// once.
///
/// Tokens are counted in billionths of a byte, so that no fraction is lost.
#[derive(Debug)]
pub struct BandwidthCap {
    bytes_per_sec: u64,
    tokens: u128,
    last_refill: Instant,
}

/// State of a [`BandwidthCap`].
pub struct CapView {
    pub bytes_per_sec: u64,
    /// In billionths of a byte.
    pub tokens: int,
    pub last_refill: Instant,
}

/// Nanoseconds from `from` to `to`.
pub open spec fn elapsed(from: Instant, to: Instant) -> int {
    if to.nanos >= from.nanos {
        to.nanos - from.nanos
    } else {
        0
    }
}

impl CapView {
    /// One second's worth of tokens.
    pub open spec fn full(self) -> int {
        self.bytes_per_sec * NANOS_PER_SEC
    }

    pub open spec fn wf(self) -> bool {
        0 <= self.tokens <= self.full()
    }

    /// The tokens at `now`, before any are used.
    pub open spec fn refilled(self, now: Instant) -> int {
        let t = self.tokens + elapsed(self.last_refill, now) * self.bytes_per_sec;
        if t <= self.full() {
            t
        } else {
            self.full()
        }
    }

    /// There are tokens for so many bytes.
    pub open spec fn grants(self, bytes: nat, now: Instant) -> bool {
        bytes * NANOS_PER_SEC <= self.refilled(now)
    }

    /// The state after a request.
    pub open spec fn after(self, bytes: nat, now: Instant) -> CapView {
        CapView {
            bytes_per_sec: self.bytes_per_sec,
            tokens: (if self.grants(bytes, now) {
                self.refilled(now) - bytes * NANOS_PER_SEC
            } else {
                self.refilled(now)
            }),
            last_refill: now,
        }
    }
}

impl View for BandwidthCap {
    type V = CapView;

    closed spec fn view(&self) -> CapView {
        CapView {
            bytes_per_sec: self.bytes_per_sec,
            tokens: self.tokens as int,
            last_refill: self.last_refill,
        }
    }
}

impl BandwidthCap {
    /// A cap with a full bucket.
    pub fn new(bytes_per_sec: u64, now: Instant) -> (c: Self)
        ensures
            c@.wf(),
            c@.bytes_per_sec == bytes_per_sec,
            c@.tokens == c@.full(),
            c@.last_refill == now,
    {
        assert(bytes_per_sec * NANOS_PER_SEC <= u64::MAX * NANOS_PER_SEC) by (nonlinear_arith)
            requires
                bytes_per_sec <= u64::MAX,
        ;
        BandwidthCap {
            bytes_per_sec,
            tokens: bytes_per_sec as u128 * NANOS_PER_SEC,
            last_refill: now,
        }
    }

    /// The rate.
    pub fn bytes_per_sec(&self) -> (n: u64)
        ensures
            n == self@.bytes_per_sec,
    {
        self.bytes_per_sec
    }

    /// The whole bytes there were tokens for at the last refill.
    pub fn tokens_bytes(&self) -> (n: u64)
        requires
            self@.wf(),
        ensures
            n == self@.tokens / (NANOS_PER_SEC as int),
    {
        proof {
            let t = self.tokens as int;
            let r = self.bytes_per_sec as int;
            assert(t / 1_000_000_000 <= r) by (nonlinear_arith)
                requires
                    0 <= t <= r * 1_000_000_000,
            ;
        }
        (self.tokens / NANOS_PER_SEC) as u64
    }

    /// Uses tokens for `bytes` and says so, or leaves them and says that there
    /// are not enough.  Tokens flow in with the time since the last call.
    pub fn try_consume(&mut self, bytes: usize, now: Instant) -> (ok: bool)
        requires
            old(self)@.wf(),
        ensures
            final(self)@.wf(),
            ok == old(self)@.grants(bytes as nat, now),
            final(self)@ == old(self)@.after(bytes as nat, now),
    {
        let rate: u128 = self.bytes_per_sec as u128;
        let spent: u128 = now.duration_since(self.last_refill).nanos;
        assert(rate * NANOS_PER_SEC <= u64::MAX * NANOS_PER_SEC) by (nonlinear_arith)
            requires
                rate <= u64::MAX,
        ;
        let full: u128 = rate * NANOS_PER_SEC;
        let refilled: u128 = if spent >= NANOS_PER_SEC {
            assert(spent * rate >= full) by (nonlinear_arith)
                requires
                    spent >= NANOS_PER_SEC,
                    full == rate * NANOS_PER_SEC,
            ;
            full
        } else {
            assert(spent * rate <= full) by (nonlinear_arith)
                requires
                    spent <= NANOS_PER_SEC,
                    full == rate * NANOS_PER_SEC,
            ;
            let more: u128 = self.tokens + spent * rate;
            if more <= full {
                more
            } else {
                full
            }
        };
        self.last_refill = now;
        self.tokens = refilled;
        assert(bytes * NANOS_PER_SEC <= usize::MAX * NANOS_PER_SEC) by (nonlinear_arith)
            requires
                bytes <= usize::MAX,
        ;
        assert(usize::MAX * NANOS_PER_SEC <= u128::MAX) by (nonlinear_arith)
            requires
                usize::MAX <= u64::MAX,
        ;
        let need: u128 = bytes as u128 * NANOS_PER_SEC;
        if refilled >= need {
            self.tokens = refilled - need;
            true
        } else {
            false
        }
    }
}

/// A request for so many bytes at some time.
pub struct Request {
    pub bytes: nat,
    pub at: Instant,
}

impl CapView {
    /// The state after some requests.
    pub open spec fn after_all(self, requests: Seq<Request>) -> CapView
        decreases requests.len(),
    {
        if requests.len() == 0 {
            self
        } else {
            self.after_all(requests.drop_last()).after(requests.last().bytes, requests.last().at)
        }
    }

    /// The bytes that some requests were granted.
    pub open spec fn granted(self, requests: Seq<Request>) -> nat
        decreases requests.len(),
    {
        if requests.len() == 0 {
            0
        } else {
            self.granted(requests.drop_last()) + (if self.after_all(requests.drop_last()).grants(
                requests.last().bytes,
                requests.last().at,
            ) {
                requests.last().bytes
            } else {
                0
            })
        }
    }
}

/// Requests come in the order of time.
pub open spec fn in_time_order(start: Instant, requests: Seq<Request>) -> bool {
    &&& forall|i: int| 0 <= i < requests.len() ==> start.nanos <= (#[trigger] requests[i]).at.nanos
    &&& forall|i: int, j: int|
        0 <= i <= j < requests.len() ==> (#[trigger] requests[i]).at.nanos <= (
        #[trigger] requests[j]).at.nanos
}

/// The cap is kept over any time: what is granted is at most one second's
/// worth and what the rate allows until the last request.
pub proof fn rate_is_kept(c: CapView, requests: Seq<Request>)
    requires
        c.wf(),
        requests.len() > 0,
        in_time_order(c.last_refill, requests),
    ensures
        c.granted(requests) * NANOS_PER_SEC <= c.full() + (requests.last().at.nanos
            - c.last_refill.nanos) * c.bytes_per_sec,
{
    budget_is_kept(c, requests);
}

proof fn budget_is_kept(c: CapView, requests: Seq<Request>)
    requires
        c.wf(),
        in_time_order(c.last_refill, requests),
    ensures
        c.after_all(requests).wf(),
        c.after_all(requests).bytes_per_sec == c.bytes_per_sec,
        c.after_all(requests).last_refill == (if requests.len() == 0 {
            c.last_refill
        } else {
            requests.last().at
        }),
        c.granted(requests) * NANOS_PER_SEC + c.after_all(requests).tokens <= c.tokens + (
        c.after_all(requests).last_refill.nanos - c.last_refill.nanos) * c.bytes_per_sec,
    decreases requests.len(),
{
    let r = c.bytes_per_sec as int;
    if requests.len() == 0 {
        assert((c.last_refill.nanos - c.last_refill.nanos) * r == 0);
    } else {
        let init = requests.drop_last();
        assert forall|i: int, j: int| 0 <= i <= j < init.len() implies (
        #[trigger] init[i]).at.nanos <= (#[trigger] init[j]).at.nanos by {
            assert(init[i] == requests[i] && init[j] == requests[j]);
        }
        assert forall|i: int| 0 <= i < init.len() implies c.last_refill.nanos <= (
        #[trigger] init[i]).at.nanos by {
            assert(init[i] == requests[i]);
        }
        budget_is_kept(c, init);
        let s = c.after_all(init);
        let t0 = c.last_refill.nanos as int;
        let t1 = s.last_refill.nanos as int;
        let t2 = requests.last().at.nanos as int;
        if init.len() > 0 {
            assert(init.last() == requests[init.len() - 1]);
        }
        assert(requests.last() == requests[requests.len() - 1]);
        assert(t0 <= t1 <= t2);
        assert((t2 - t0) * r == (t1 - t0) * r + (t2 - t1) * r) by (nonlinear_arith);
        assert((t2 - t1) * r >= 0) by (nonlinear_arith)
            requires
                t2 >= t1,
                r >= 0,
        ;
        let g0 = c.granted(init) as int;
        let b = requests.last().bytes as int;
        assert((g0 + b) * NANOS_PER_SEC == g0 * NANOS_PER_SEC + b * NANOS_PER_SEC)
            by (nonlinear_arith);
        assert(b * NANOS_PER_SEC >= 0) by (nonlinear_arith)
            requires
                b >= 0,
        ;
    }
}

/// A request is granted if and only if the tokens saved up cover it: those
/// left over and one for each byte the rate allowed since, never more than a
/// second's worth.  A grant takes exactly its bytes, a refusal takes nothing.
pub proof fn a_request_takes_what_it_is_granted(c: CapView, bytes: nat, now: Instant)
    requires
        c.wf(),
        c.last_refill.nanos <= now.nanos,
    ensures
        ({
            let earned = (now.nanos - c.last_refill.nanos) * c.bytes_per_sec;
            let second = c.bytes_per_sec * 1_000_000_000;
            let saved = c.tokens + earned;
            let price = bytes * 1_000_000_000;
            let a = c.after(bytes, now);
            &&& c.grants(bytes, now) <==> price <= saved && price <= second
            &&& c.grants(bytes, now) && saved <= second ==> a.tokens == saved - price
            &&& c.grants(bytes, now) && saved > second ==> a.tokens == second - price
            &&& !c.grants(bytes, now) && saved <= second ==> a.tokens == saved
            &&& !c.grants(bytes, now) && saved > second ==> a.tokens == second
            &&& a.bytes_per_sec == c.bytes_per_sec
            &&& a.last_refill == now
        }),
{
}

/// After a second without a request, a second's worth is granted at once.
pub proof fn an_idle_second_fills_the_cap(c: CapView, bytes: nat, now: Instant)
    requires
        c.wf(),
        c.last_refill.nanos + 1_000_000_000 <= now.nanos,
    ensures
        c.grants(bytes, now) <==> bytes <= c.bytes_per_sec,
{
    let e = now.nanos - c.last_refill.nanos;
    assert(e * c.bytes_per_sec >= 1_000_000_000 * c.bytes_per_sec) by (nonlinear_arith)
        requires
            e >= 1_000_000_000,
    ;
    assert(bytes * 1_000_000_000 <= c.bytes_per_sec * 1_000_000_000 <==> bytes <= c.bytes_per_sec)
        by (nonlinear_arith);
}

/// Time that runs back earns nothing.
pub proof fn time_that_runs_back_earns_nothing(c: CapView, bytes: nat, now: Instant)
    requires
        c.wf(),
        now.nanos < c.last_refill.nanos,
    ensures
        c.grants(bytes, now) <==> bytes * 1_000_000_000 <= c.tokens,
        c.grants(bytes, now) ==> c.after(bytes, now).tokens == c.tokens - bytes * 1_000_000_000,
        !c.grants(bytes, now) ==> c.after(bytes, now).tokens == c.tokens,
        c.after(bytes, now).last_refill == now,
{
}

} // verus!
