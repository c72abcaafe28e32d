//! Retransmission deadlines.
use crate::reliable_emitter::{EmitKey, RTO_BACKOFF_FACTOR};
use crate::time::{Duration, Instant};
use std::collections::VecDeque;
use vstd::prelude::*;

verus! {

broadcast use vstd::std_specs::vecdeque::group_vec_dequeue_axioms;

/// A tile-pass and when it is due for retransmission.
#[derive(Debug, Clone, Copy, PartialEq, Eq, Structural)]
pub struct RtoEntry {
    pub deadline: Instant,
    pub key: EmitKey,
}

/// Pending deadlines, soonest first; equal ones in the order of scheduling.
pub struct RtoTimerWheel {
    entries: VecDeque<RtoEntry>,
    disabled: bool,
}

impl View for RtoTimerWheel {
    type V = Seq<RtoEntry>;

    closed spec fn view(&self) -> Seq<RtoEntry> {
        self.entries@
    }
}

/// Sorted by deadline.
pub open spec fn by_deadline(s: Seq<RtoEntry>) -> bool {
    forall|i: int, j: int|
        0 <= i <= j < s.len() ==> (#[trigger] s[i]).deadline.nanos <= (
        #[trigger] s[j]).deadline.nanos
}

/// Number of entries due no later than `t`, for a sorted sequence.
pub open spec fn due_count(s: Seq<RtoEntry>, t: Instant) -> nat
    decreases s.len(),
{
    if s.len() == 0 {
        0
    } else {
        due_count(s.drop_last(), t) + (if s.last().deadline.nanos <= t.nanos {
            1nat
        } else {
            0nat
        })
    }
}

impl RtoTimerWheel {
    pub open spec fn wf(&self) -> bool {
        by_deadline(self@)
    }

    /// Whether retransmission by deadline is switched off.
    pub closed spec fn is_disabled(&self) -> bool {
        self.disabled
    }

    pub fn new() -> (w: Self)
        ensures
            w.wf(),
            w@ == Seq::<RtoEntry>::empty(),
            !w.is_disabled(),
    {
        RtoTimerWheel { entries: VecDeque::new(), disabled: false }
    }

    /// Switches retransmission by deadline off or on.
    pub fn set_disabled(&mut self, disabled: bool)
        ensures
            final(self)@ == old(self)@,
            final(self).is_disabled() == disabled,
    {
        self.disabled = disabled;
    }

    /// Adds a deadline behind all that are not later.
    pub fn schedule(&mut self, key: EmitKey, deadline: Instant)
        requires
            old(self).wf(),
        ensures
            final(self).wf(),
            final(self)@ == old(self)@.insert(
                due_count(old(self)@, deadline) as int,
                RtoEntry { deadline, key },
            ),
            final(self).is_disabled() == old(self).is_disabled(),
    {
        let mut pos: usize = self.entries.len();
        while pos > 0 && self.entries[pos - 1].deadline.nanos > deadline.nanos
            invariant
                pos <= self.entries@.len(),
                *self == *old(self),
                by_deadline(self.entries@),
                forall|j: int|
                    pos <= j < self.entries@.len() ==> (
                    #[trigger] self.entries@[j]).deadline.nanos > deadline.nanos,
            decreases pos,
        {
            pos = pos - 1;
        }
        proof {
            assert forall|j: int| 0 <= j < pos implies (
            #[trigger] self.entries@[j]).deadline.nanos <= deadline.nanos by {
                assert(self.entries@[j].deadline.nanos <= self.entries@[pos - 1].deadline.nanos);
            }
            due_count_is(self.entries@, deadline, pos as int);
        }
        self.entries.insert(pos, RtoEntry { deadline, key });
    }

    /// Takes the soonest entry, if it is due at `now`.  The caller looks
    /// whether its key is still wanted.
    pub fn pop_due(&mut self, now: Instant) -> (r: Option<EmitKey>)
        requires
            old(self).wf(),
        ensures
            final(self).wf(),
            final(self).is_disabled() == old(self).is_disabled(),
            if !old(self).is_disabled() && old(self)@.len() > 0 && old(self)@[0].deadline.nanos
                <= now.nanos {
                r == Some(old(self)@[0].key) && final(self)@ == old(self)@.skip(1)
            } else {
                r is None && final(self)@ == old(self)@
            },
    {
        if self.disabled || self.entries.len() == 0 {
            return None;
        }
        if self.entries[0].deadline.nanos > now.nanos {
            return None;
        }
        let entry = self.entries.pop_front().unwrap();
        assert(self.entries@ =~= old(self)@.skip(1));
        Some(entry.key)
    }

    pub fn len(&self) -> (n: usize)
        ensures
            n == self@.len(),
    {
        self.entries.len()
    }

    pub fn is_empty(&self) -> (b: bool)
        ensures
            b == (self@.len() == 0),
    {
        self.entries.len() == 0
    }
}

impl Default for RtoTimerWheel {
    fn default() -> (w: Self)
        ensures
            w.wf(),
            w@ == Seq::<RtoEntry>::empty(),
            !w.is_disabled(),
    {
        RtoTimerWheel::new()
    }
}

/// If exactly the first `n` entries are due, there are `n` due entries.
proof fn due_count_is(s: Seq<RtoEntry>, t: Instant, n: int)
    requires
        0 <= n <= s.len(),
        forall|j: int| 0 <= j < n ==> (#[trigger] s[j]).deadline.nanos <= t.nanos,
        forall|j: int| n <= j < s.len() ==> (#[trigger] s[j]).deadline.nanos > t.nanos,
    ensures
        due_count(s, t) == n,
    decreases s.len(),
{
    if s.len() > 0 {
        if n == s.len() {
            due_count_is(s.drop_last(), t, n - 1);
        } else {
            due_count_is(s.drop_last(), t, n);
        }
    }
}

/// There are no more due entries than entries.
pub proof fn due_count_bound(s: Seq<RtoEntry>, t: Instant)
    ensures
        due_count(s, t) <= s.len(),
    decreases s.len(),
{
    if s.len() > 0 {
        due_count_bound(s.drop_last(), t);
    }
}

/// What `pop_due` leaves has no deadline before the one it took: entries come
/// out in the order of their deadlines.
pub proof fn soonest_comes_first(s: Seq<RtoEntry>, i: int)
    requires
        by_deadline(s),
        0 <= i < s.len(),
    ensures
        s[0].deadline.nanos <= s[i].deadline.nanos,
{
}

/// The longest time between retries, in nanoseconds.
pub const RTO_BACKOFF_MAX_NANOS: u128 = 5_000_000_000;

/// Floor of the first deadline, above every latency seen on a healthy path.
pub const ACK_DEADLINE_FLOOR_NANOS: u128 = 150_000_000;

/// First deadline while the latency is not known: pessimistic, since guessing
/// too fast retransmits everything in flight.
pub const ACK_DEADLINE_COLD_START_NANOS: u128 = 1_000_000_000;

/// Ceiling of the first deadline.
pub const ACK_DEADLINE_CEILING_NANOS: u128 = 2_000_000_000;

/// Ceiling of the first deadline where it follows the smoothed round trip.
pub const SMOOTHED_RTT_CEILING_NANOS: u128 = 50_000_000;

/// `x` kept between `lo` and `hi`.
pub open spec fn clamped(x: int, lo: int, hi: int) -> int {
    if x < lo {
        lo
    } else if x > hi {
        hi
    } else {
        x
    }
}

/// Two to the power of `n`.
pub open spec fn pow2(n: nat) -> nat
    decreases n,
{
    if n == 0 {
        1
    } else {
        2 * pow2((n - 1) as nat)
    }
}

/// The first deadline for a measured 95th percentile of the latency.
pub open spec fn first_deadline(ack_p95: Option<Duration>) -> int {
    match ack_p95 {
        Some(p95) => clamped(
            2 * p95.nanos,
            ACK_DEADLINE_FLOOR_NANOS as int,
            ACK_DEADLINE_CEILING_NANOS as int,
        ),
        None => ACK_DEADLINE_COLD_START_NANOS as int,
    }
}

/// `base` doubled per attempt, eight times at most, and at most the longest
/// time between retries.
pub open spec fn backed_off(base: int, attempts: u8) -> int {
    let doubled = base * pow2(
        if attempts <= 8 {
            attempts as nat
        } else {
            8
        },
    );
    if doubled <= RTO_BACKOFF_MAX_NANOS {
        doubled
    } else {
        RTO_BACKOFF_MAX_NANOS as int
    }
}

/// Two to the power of at most eight.
fn small_pow2(n: u8) -> (r: u32)
    requires
        n <= 8,
    ensures
        r == pow2(n as nat),
        1 <= r <= 256,
{
    let mut r: u32 = 1;
    let mut i: u8 = 0;
    while i < n
        invariant
            i <= n <= 8,
            r == pow2(i as nat),
            1 <= r,
            i == 0 ==> r == 1,
            i == 1 ==> r == 2,
            i == 2 ==> r == 4,
            i == 3 ==> r == 8,
            i == 4 ==> r == 16,
            i == 5 ==> r == 32,
            i == 6 ==> r == 64,
            i == 7 ==> r == 128,
            i == 8 ==> r == 256,
        decreases n - i,
    {
        r = r * RTO_BACKOFF_FACTOR;
        i = i + 1;
    }
    r
}

/// Computes `backed_off`.
fn back_off(base: u128, attempts: u8) -> (d: Duration)
    requires
        base <= ACK_DEADLINE_CEILING_NANOS,
    ensures
        d.nanos == backed_off(base as int, attempts),
{
    let shift: u8 = if attempts <= 8 {
        attempts
    } else {
        8
    };
    let factor: u128 = small_pow2(shift) as u128;
    assert(base * factor <= 2_000_000_000 * 256) by (nonlinear_arith)
        requires
            base <= 2_000_000_000,
            factor <= 256,
    ;
    let doubled: u128 = base * factor;
    if doubled <= RTO_BACKOFF_MAX_NANOS {
        Duration { nanos: doubled }
    } else {
        Duration { nanos: RTO_BACKOFF_MAX_NANOS }
    }
}

/// The time until retransmission after `attempts` earlier ones, from the
/// measured 95th percentile of the acknowledgement latency.
///
/// The first deadline is twice the percentile, kept between its floor and its
/// ceiling, or the cold-start deadline while nothing is measured.  It doubles
/// with every attempt, up to the longest time between retries.
pub fn rto_for_attempt(ack_p95: Option<Duration>, attempts: u8) -> (d: Duration)
    ensures
        d.nanos == backed_off(first_deadline(ack_p95), attempts),
{
    let base: u128 = match ack_p95 {
        Some(p95) => {
            if p95.nanos > ACK_DEADLINE_CEILING_NANOS / 2 {
                ACK_DEADLINE_CEILING_NANOS
            } else if 2 * p95.nanos < ACK_DEADLINE_FLOOR_NANOS {
                ACK_DEADLINE_FLOOR_NANOS
            } else {
                2 * p95.nanos
            }
        },
        None => ACK_DEADLINE_COLD_START_NANOS,
    };
    back_off(base, attempts)
}

/// The first deadline where only a smoothed round trip is known: twice it,
/// at most its ceiling.  A round trip of zero is none that was measured, and
/// gets the ceiling: a deadline of zero would be due again at once.
pub open spec fn smoothed_deadline(smoothed_rtt: Duration) -> int {
    if 0 < 2 * smoothed_rtt.nanos <= SMOOTHED_RTT_CEILING_NANOS {
        2 * smoothed_rtt.nanos
    } else {
        SMOOTHED_RTT_CEILING_NANOS as int
    }
}

/// The time until retransmission after `attempts` earlier ones, from a
/// smoothed round trip.
pub fn rto_for_smoothed_rtt(smoothed_rtt: Duration, attempts: u8) -> (d: Duration)
    ensures
        d.nanos == backed_off(smoothed_deadline(smoothed_rtt), attempts),
{
    let base: u128 = if 0 < smoothed_rtt.nanos && smoothed_rtt.nanos <= SMOOTHED_RTT_CEILING_NANOS
        / 2 {
        2 * smoothed_rtt.nanos
    } else {
        SMOOTHED_RTT_CEILING_NANOS
    };
    back_off(base, attempts)
}

/// Powers of two are positive and grow.
proof fn pow2_grows(m: nat, n: nat)
    requires
        m <= n,
    ensures
        1 <= pow2(m) <= pow2(n),
    decreases n,
{
    if m < n {
        pow2_grows(m, (n - 1) as nat);
    } else if n > 0 {
        pow2_grows((m - 1) as nat, (n - 1) as nat);
    }
}

/// Every deadline lies between the floor and the longest time between
/// retries, and more attempts never shorten it.
pub proof fn deadlines_are_bounded_and_grow(ack_p95: Option<Duration>, a: u8, b: u8)
    requires
        a <= b,
    ensures
        ACK_DEADLINE_FLOOR_NANOS <= backed_off(first_deadline(ack_p95), a),
        backed_off(first_deadline(ack_p95), a) <= backed_off(first_deadline(ack_p95), b),
        backed_off(first_deadline(ack_p95), b) <= RTO_BACKOFF_MAX_NANOS,
{
    let base = first_deadline(ack_p95);
    let m: nat = if a <= 8 {
        a as nat
    } else {
        8
    };
    let n: nat = if b <= 8 {
        b as nat
    } else {
        8
    };
    pow2_grows(m, n);
    assert(base * pow2(m) <= base * pow2(n) && base <= base * pow2(m)) by (nonlinear_arith)
        requires
            base >= 0,
            1 <= pow2(m) <= pow2(n),
    ;
}

/// A slower path never gets an earlier deadline than a faster one.
pub proof fn slower_path_waits_longer(p: Duration, q: Duration, attempts: u8)
    requires
        p.nanos <= q.nanos,
    ensures
        backed_off(first_deadline(Some(p)), attempts) <= backed_off(
            first_deadline(Some(q)),
            attempts,
        ),
{
    let x = first_deadline(Some(p));
    let y = first_deadline(Some(q));
    let f = pow2(
        if attempts <= 8 {
            attempts as nat
        } else {
            8
        },
    );
    assert(x * f <= y * f) by (nonlinear_arith)
        requires
            x <= y,
            f >= 0,
    ;
}

/// A positive first deadline stays positive.
pub proof fn backed_off_is_positive(base: int, attempts: u8)
    requires
        base > 0,
    ensures
        backed_off(base, attempts) > 0,
{
    let n: nat = if attempts <= 8 {
        attempts as nat
    } else {
        8
    };
    pow2_grows(0, n);
    assert(base * pow2(n) > 0) by (nonlinear_arith)
        requires
            base > 0,
            pow2(n) >= 1,
    ;
}

/// A sorted sequence whose first entry is not due has none that is due.
pub proof fn due_count_positive(s: Seq<RtoEntry>, t: Instant)
    requires
        by_deadline(s),
        s.len() > 0,
    ensures
        s[0].deadline.nanos <= t.nanos <==> due_count(s, t) > 0,
    decreases s.len(),
{
    if s.len() > 1 {
        due_count_positive(s.drop_last(), t);
        assert(s.drop_last()[0] == s[0]);
        assert(s[0].deadline.nanos <= s[s.len() - 1].deadline.nanos);
    } else {
        assert(s.drop_last() =~= Seq::empty());
        assert(due_count(s.drop_last(), t) == 0);
    }
}

/// Taking the first entry off takes it off the count.
pub proof fn due_count_rest(s: Seq<RtoEntry>, t: Instant)
    requires
        s.len() > 0,
    ensures
        due_count(s, t) == due_count(s.skip(1), t) + (if s[0].deadline.nanos <= t.nanos {
            1nat
        } else {
            0nat
        }),
    decreases s.len(),
{
    if s.len() > 1 {
        due_count_rest(s.drop_last(), t);
        assert(s.skip(1).drop_last() =~= s.drop_last().skip(1));
        assert(s.drop_last()[0] == s[0]);
        assert(s.skip(1).last() == s.last());
    } else {
        assert(s.drop_last() =~= Seq::empty());
        assert(s.skip(1) =~= Seq::empty());
        assert(due_count(s.drop_last(), t) == 0);
        assert(due_count(s.skip(1), t) == 0);
    }
}

/// In a sorted sequence exactly the first `due_count` entries are due.
pub proof fn due_count_splits(s: Seq<RtoEntry>, t: Instant)
    requires
        by_deadline(s),
    ensures
        due_count(s, t) <= s.len(),
        forall|j: int|
            0 <= j < due_count(s, t) ==> (#[trigger] s[j]).deadline.nanos <= t.nanos,
        forall|j: int|
            due_count(s, t) <= j < s.len() ==> (#[trigger] s[j]).deadline.nanos > t.nanos,
    decreases s.len(),
{
    if s.len() > 0 {
        due_count_splits(s.drop_last(), t);
        if s.last().deadline.nanos <= t.nanos && due_count(s.drop_last(), t) < s.len() - 1 {
            assert(s.drop_last()[s.len() - 2] == s[s.len() - 2]);
            assert(s[s.len() - 2].deadline.nanos <= s[s.len() - 1].deadline.nanos);
        }
        assert forall|j: int| 0 <= j < due_count(s, t) implies (
        #[trigger] s[j]).deadline.nanos <= t.nanos by {
            if j < s.len() - 1 {
                assert(s.drop_last()[j] == s[j]);
            }
        }
        assert forall|j: int| due_count(s, t) <= j < s.len() implies (
        #[trigger] s[j]).deadline.nanos > t.nanos by {
            if j < s.len() - 1 {
                assert(s.drop_last()[j] == s[j]);
            }
        }
    }
}

/// A later deadline adds nothing that is due, and the order stays.
pub proof fn later_deadline_is_not_due(
    s: Seq<RtoEntry>,
    key: EmitKey,
    deadline: Instant,
    now: Instant,
)
    requires
        by_deadline(s),
        deadline.nanos > now.nanos,
    ensures
        due_count(
            s.insert(due_count(s, deadline) as int, RtoEntry { deadline, key }),
            now,
        ) == due_count(s, now),
        by_deadline(s.insert(due_count(s, deadline) as int, RtoEntry { deadline, key })),
{
    due_count_splits(s, deadline);
    due_count_splits(s, now);
    let at = due_count(s, deadline) as int;
    let m = due_count(s, now) as int;
    let t = s.insert(at, RtoEntry { deadline, key });
    if m > at {
        assert(s[at].deadline.nanos <= now.nanos);
    }
    assert forall|j: int| 0 <= j < m implies (#[trigger] t[j]).deadline.nanos <= now.nanos by {
        assert(t[j] == s[j]);
    }
    assert forall|j: int| m <= j < t.len() implies (#[trigger] t[j]).deadline.nanos
        > now.nanos by {
        if j < at {
            assert(t[j] == s[j]);
        } else if j > at {
            assert(t[j] == s[j - 1]);
        }
    }
    due_count_is(t, now, m);
    assert forall|i: int, j: int| 0 <= i <= j < t.len() implies (
    #[trigger] t[i]).deadline.nanos <= (#[trigger] t[j]).deadline.nanos by {
        let a = if i < at {
            s[i]
        } else {
            s[i - 1]
        };
        let b = if j < at {
            s[j]
        } else {
            s[j - 1]
        };
    }
}

/// The first wait is twice the 95th percentile of the acknowledgement times,
/// between 150 ms and 2 s, and one second while nothing is known of them.
pub proof fn the_first_wait_is_twice_the_slow_ack(p95: Duration)
    ensures
        first_deadline(None) == 1_000_000_000,
        150_000_000 <= first_deadline(Some(p95)) <= 2_000_000_000,
        75_000_000 <= p95.nanos <= 1_000_000_000 ==> first_deadline(Some(p95)) == p95.nanos
            + p95.nanos,
        p95.nanos < 75_000_000 ==> first_deadline(Some(p95)) == 150_000_000,
        p95.nanos > 1_000_000_000 ==> first_deadline(Some(p95)) == 2_000_000_000,
{
}

/// On a path with a smoothed round trip the first wait is two round trips, at
/// most 50 ms, and 50 ms while there is none.
pub proof fn the_smoothed_wait_is_two_round_trips(rtt: Duration)
    ensures
        rtt.nanos == 0 ==> smoothed_deadline(rtt) == 50_000_000,
        0 < rtt.nanos <= 25_000_000 ==> smoothed_deadline(rtt) == rtt.nanos + rtt.nanos,
        rtt.nanos > 25_000_000 ==> smoothed_deadline(rtt) == 50_000_000,
{
}

/// Each further attempt waits twice as long, up to 5 s, and from the eighth
/// on the wait stays.
pub proof fn each_attempt_doubles_the_wait(base: int, attempts: u8)
    requires
        0 < base <= 5_000_000_000,
    ensures
        backed_off(base, 0) == base,
        backed_off(base, attempts) <= 5_000_000_000,
        attempts < 8 && 2 * backed_off(base, attempts) <= 5_000_000_000 ==> backed_off(
            base,
            (attempts + 1) as u8,
        ) == 2 * backed_off(base, attempts),
        attempts < 8 && 2 * backed_off(base, attempts) > 5_000_000_000 ==> backed_off(
            base,
            (attempts + 1) as u8,
        ) == 5_000_000_000,
        8 <= attempts ==> backed_off(base, attempts) == backed_off(base, 8),
{
    assert(pow2(0) == 1);
    assert(base * 1 == base);
    if attempts < 8 {
        let p = pow2(attempts as nat);
        assert(pow2((attempts + 1) as nat) == 2 * p);
        assert(base * (2 * p) == 2 * (base * p)) by (nonlinear_arith);
    }
}

} // verus!
