//! What becomes of tile-passes that nobody acknowledges: they are sent again,
//! each with its deadline, for as long as the session lasts.
use crate::reliable_emitter::cache::EntryView;
use crate::reliable_emitter::emission_queue::EmissionView;
use crate::reliable_emitter::emitter::{
    as_sources, deadlines_wait, next_attempt, one_more, ticks_keep_everything, tracks,
    DeadlineSource, EmitterView,
};
use crate::reliable_emitter::rto::RtoEntry;
use crate::reliable_emitter::{rto, EmitKey};
use crate::seqs;
use crate::time::Instant;
use vstd::prelude::*;

verus! {

/// Where the repetition of one tile-pass stands.
pub struct Repetition {
    pub attempts: u8,
    pub deadline: Instant,
    /// How often it was sent again.
    pub repeats: nat,
}

impl Repetition {
    /// One tick: a deadline that is reached counts an attempt and gives way to
    /// one that is backed off by the number of attempts.
    pub open spec fn ticked(self, source: DeadlineSource, now: Instant) -> Repetition {
        let attempts = next_attempt(self.attempts);
        if self.deadline.nanos <= now.nanos {
            Repetition {
                attempts,
                deadline: Instant { nanos: (now.nanos + source.nanos_after(attempts)) as u128 },
                repeats: self.repeats + 1,
            }
        } else {
            self
        }
    }

    /// Several ticks.
    pub open spec fn ticked_all(self, source: DeadlineSource, ticks: Seq<(Instant, nat)>)
        -> Repetition
        decreases ticks.len(),
    {
        if ticks.len() == 0 {
            self
        } else {
            self.ticked_all(source, ticks.drop_last()).ticked(source, ticks.last().0)
        }
    }
}

/// The same datagrams so often.
pub open spec fn repeated(fragments: Seq<Seq<u8>>, n: nat) -> Seq<EmissionView>
    decreases n,
{
    if n == 0 {
        Seq::empty()
    } else {
        repeated(fragments, (n - 1) as nat) + as_sources(fragments)
    }
}

/// So many more, staying at the largest number.
pub open spec fn that_many_more(n: u64, by: nat) -> u64 {
    if n + by > u64::MAX {
        u64::MAX
    } else {
        (n + by) as u64
    }
}

/// A tile-pass that nobody acknowledges, alone with its deadline, is sent again
/// with every tick that reaches the deadline and with no other, for any number
/// of ticks: each time the same bytes, one attempt more, and a deadline backed
/// off by the number of attempts.
pub proof fn one_key_is_repeated(s: EmitterView, key: EmitKey, ticks: Seq<(Instant, nat)>)
    requires
        s.cache.dom().contains(key.packed()),
        s.deadlines.len() == 1,
        s.deadlines[0].key == key,
        s.deadlines[0].deadline == s.cache[key.packed()].rto_deadline,
        !s.deadlines_off,
        forall|i: int|
            0 <= i < ticks.len() ==> (#[trigger] ticks[i]).1 > 0 && ticks[i].0.nanos
                + rto::RTO_BACKOFF_MAX_NANOS <= u128::MAX,
    ensures
        ({
            let e = s.cache[key.packed()];
            let r = Repetition { attempts: e.attempts, deadline: e.rto_deadline, repeats: 0 }.ticked_all(
                s.source,
                ticks,
            );
            let t = s.ticked_all(ticks);
            &&& t.cache.dom() == s.cache.dom()
            &&& t.cache[key.packed()].attempts == r.attempts
            &&& t.cache[key.packed()].rto_deadline == r.deadline
            &&& t.cache[key.packed()].fragments == e.fragments
            &&& t.deadlines == seq![RtoEntry { deadline: r.deadline, key }]
            &&& t.queue.queue == s.queue.queue + repeated(e.fragments, r.repeats)
            &&& t.stats.rto_fired == that_many_more(s.stats.rto_fired, r.repeats)
            &&& t.source == s.source
            &&& !t.deadlines_off
        }),
    decreases ticks.len(),
{
    let n = key.packed();
    let e = s.cache[n];
    let r0 = Repetition { attempts: e.attempts, deadline: e.rto_deadline, repeats: 0 };
    if ticks.len() == 0 {
        assert(s.deadlines =~= seq![RtoEntry { deadline: e.rto_deadline, key }]);
        assert(s.queue.queue + repeated(e.fragments, 0) =~= s.queue.queue);
    } else {
        let init = ticks.drop_last();
        let (now, budget) = ticks.last();
        assert(ticks[ticks.len() - 1].1 > 0);
        assert forall|i: int| 0 <= i < init.len() implies (#[trigger] init[i]).1 > 0
            && init[i].0.nanos + rto::RTO_BACKOFF_MAX_NANOS <= u128::MAX by {
            assert(ticks[i].1 > 0);
        }
        one_key_is_repeated(s, key, init);
        let t = s.ticked_all(init);
        let r = r0.ticked_all(s.source, init);
        let u = s.ticked_all(ticks);
        if t.has_due(now) {
            let w = t.without_soonest();
            assert(w.deadlines =~= Seq::empty());
            let f = w.fired(key, now);
            let attempts = next_attempt(r.attempts);
            let deadline = Instant { nanos: (now.nanos + s.source.nanos_after(attempts)) as u128 };
            rto::due_count_splits(w.deadlines, deadline);
            assert(f.deadlines =~= seq![RtoEntry { deadline, key }]);
            deadlines_wait(s.source, attempts);
            assert(deadline.nanos > now.nanos);
            assert(!f.has_due(now));
            reveal_with_fuel(EmitterView::ticked, 2);
            assert(u == f);
            assert(f.cache.dom() =~= s.cache.dom());
            let more = as_sources(e.fragments);
            assert(f.queue.queue =~= t.queue.queue + more);
            assert(repeated(e.fragments, r.repeats + 1) == repeated(e.fragments, r.repeats) + more);
            assert(s.queue.queue + repeated(e.fragments, r.repeats) + more =~= s.queue.queue + (
            repeated(e.fragments, r.repeats) + more));
        } else {
            assert(u == t);
        }
    }
}

/// Deadlines of the tile-pass with this number.
pub open spec fn is_of(n: u64) -> spec_fn(RtoEntry) -> bool {
    |e: RtoEntry| e.key.packed() == n
}

/// The deadlines of the tile-pass with this number, among these.
pub open spec fn of_key(deadlines: Seq<RtoEntry>, n: u64) -> Seq<RtoEntry> {
    deadlines.filter(is_of(n))
}

/// The deadlines that are due, soonest first.
pub open spec fn due(s: EmitterView, now: Instant) -> Seq<RtoEntry> {
    s.deadlines.take(rto::due_count(s.deadlines, now) as int)
}

/// What is sent again for these deadlines: all datagrams of each tile-pass that
/// is still cached.
pub open spec fn resent(cache: Map<u64, EntryView>, due: Seq<RtoEntry>) -> Seq<EmissionView>
    decreases due.len(),
{
    if due.len() == 0 {
        Seq::empty()
    } else {
        let n = due[0].key.packed();
        (if cache.dom().contains(n) {
            as_sources(cache[n].fragments)
        } else {
            Seq::empty()
        }) + resent(cache, due.skip(1))
    }
}

/// How many of these deadlines are for a tile-pass that is still cached.
pub open spec fn live_count(cache: Map<u64, EntryView>, due: Seq<RtoEntry>) -> nat
    decreases due.len(),
{
    if due.len() == 0 {
        0
    } else {
        (if cache.dom().contains(due[0].key.packed()) {
            1nat
        } else {
            0nat
        }) + live_count(cache, due.skip(1))
    }
}

/// So many attempts more, staying at the largest number.
pub open spec fn attempts_after(attempts: u8, by: nat) -> u8 {
    if attempts + by > u8::MAX {
        u8::MAX
    } else {
        (attempts + by) as u8
    }
}

/// The entry of a tile-pass that was sent again so often at `now`.
pub open spec fn sent_again(e: EntryView, by: nat, now: Instant, source: DeadlineSource) -> EntryView {
    let attempts = attempts_after(e.attempts, by);
    if by == 0 {
        e
    } else {
        EntryView {
            attempts,
            last_sent_at: now,
            rto_deadline: Instant { nanos: (now.nanos + source.nanos_after(attempts)) as u128 },
            ..e
        }
    }
}

impl EmitterView {
    /// The budget covers what is due, retransmission is on, and the clock has
    /// room for the longest deadline.
    pub open spec fn is_covered(self, now: Instant, budget: nat) -> bool {
        &&& rto::by_deadline(self.deadlines)
        &&& !self.deadlines_off
        &&& rto::due_count(self.deadlines, now) <= budget
        &&& now.nanos + rto::RTO_BACKOFF_MAX_NANOS <= u128::MAX
    }

    /// Each of these ticks has a budget that covers what is due at its time.
    pub open spec fn are_covered(self, ticks: Seq<(Instant, nat)>) -> bool
        decreases ticks.len(),
    {
        ticks.len() == 0 || (self.are_covered(ticks.drop_last()) && self.ticked_all(
            ticks.drop_last(),
        ).is_covered(ticks.last().0, ticks.last().1))
    }

    /// The tile-pass is cached, and this is its only deadline.
    pub open spec fn awaits(self, key: EmitKey, deadline: Instant) -> bool {
        &&& self.cache.dom().contains(key.packed())
        &&& self.cache[key.packed()].rto_deadline == deadline
        &&& of_key(self.deadlines, key.packed()) == seq![RtoEntry { deadline, key }]
    }
}

/// What is sent again depends on the datagrams alone.
proof fn resent_agrees(a: Map<u64, EntryView>, b: Map<u64, EntryView>, due: Seq<RtoEntry>)
    requires
        a.dom() == b.dom(),
        forall|n: u64| #[trigger] a.dom().contains(n) ==> a[n].fragments == b[n].fragments,
    ensures
        resent(a, due) == resent(b, due),
        live_count(a, due) == live_count(b, due),
    decreases due.len(),
{
    if due.len() > 0 {
        resent_agrees(a, b, due.skip(1));
    }
}

/// A deadline more is one more of its own tile-pass, and none of another.
proof fn of_key_insert(s: Seq<RtoEntry>, at: int, e: RtoEntry, n: u64)
    requires
        0 <= at <= s.len(),
    ensures
        e.key.packed() != n ==> of_key(s.insert(at, e), n) == of_key(s, n),
        e.key.packed() == n ==> of_key(s.insert(at, e), n).len() == of_key(s, n).len() + 1,
{
    let (a, b) = (s.take(at), s.skip(at));
    assert(s =~= a + b);
    assert(s.insert(at, e) =~= a + (seq![e] + b));
    Seq::filter_distributes_over_add(a, b, is_of(n));
    Seq::filter_distributes_over_add(a, seq![e] + b, is_of(n));
    seqs::filter_first(seq![e] + b, is_of(n));
    assert((seq![e] + b).skip(1) =~= b);
    assert((seq![e] + b)[0] == e);
}

/// The deadlines behind the first are in order too.
proof fn rest_in_order(s: Seq<RtoEntry>)
    requires
        rto::by_deadline(s),
        s.len() > 0,
    ensures
        rto::by_deadline(s.skip(1)),
{
    assert forall|i: int, j: int| 0 <= i <= j < s.skip(1).len() implies (
    #[trigger] s.skip(1)[i]).deadline.nanos <= (#[trigger] s.skip(1)[j]).deadline.nanos by {
        assert(s.skip(1)[i] == s[i + 1]);
        assert(s.skip(1)[j] == s[j + 1]);
    }
}

/// A tick that covers what is due sends every due tile-pass again that is still
/// cached, and nothing else: behind what was queued stand all its datagrams, byte
/// for byte, once for each of its due deadlines and in the order of the
/// deadlines.  Each time counts one attempt, and no deadline is due any more.
pub proof fn every_due_tile_pass_is_sent_again(s: EmitterView, now: Instant, budget: nat)
    requires
        s.is_covered(now, budget),
    ensures
        ({
            let t = s.ticked(now, budget);
            &&& t.queue.queue == s.queue.queue + resent(s.cache, due(s, now))
            &&& t.stats.rto_fired == that_many_more(
                s.stats.rto_fired,
                live_count(s.cache, due(s, now)),
            )
            &&& t.cache.dom() == s.cache.dom()
            &&& t.source == s.source
            &&& !t.deadlines_off
            &&& !t.has_due(now)
            &&& rto::by_deadline(t.deadlines)
        }),
        forall|n: u64| #[trigger]
            s.cache.dom().contains(n) ==> s.ticked(now, budget).cache[n] == sent_again(
                s.cache[n],
                of_key(due(s, now), n).len(),
                now,
                s.source,
            ) && of_key(s.ticked(now, budget).deadlines, n).len() == of_key(s.deadlines, n).len(),
        forall|n: u64| #[trigger]
            s.cache.dom().contains(n) && of_key(due(s, now), n).len() > 0 ==> exists|i: int|
                0 <= i < s.ticked(now, budget).deadlines.len() && (
                #[trigger] s.ticked(now, budget).deadlines[i]).key.packed() == n && s.ticked(
                    now,
                    budget,
                ).deadlines[i].deadline == s.ticked(now, budget).cache[n].rto_deadline,
        forall|e: RtoEntry| #[trigger]
            s.deadlines.contains(e) && e.deadline.nanos > now.nanos ==> s.ticked(
                now,
                budget,
            ).deadlines.contains(e),
    decreases budget, s.deadlines.len(),
{
    let d = s.deadlines;
    let m = rto::due_count(d, now) as int;
    rto::due_count_splits(d, now);
    let t = s.ticked(now, budget);
    if d.len() > 0 {
        rto::due_count_positive(d, now);
    }
    if !s.has_due(now) {
        assert(m == 0);
        assert(due(s, now) =~= Seq::empty());
        assert(s.queue.queue + resent(s.cache, due(s, now)) =~= s.queue.queue);
        assert forall|n: u64| #[trigger] s.cache.dom().contains(n) implies of_key(
            due(s, now),
            n,
        ).len() == 0 by {
            seqs::filter_empty(is_of(n));
        }
    } else {
        let first = d[0];
        let key = first.key;
        let w = s.without_soonest();
        rto::due_count_rest(d, now);
        rest_in_order(d);
        let q = due(s, now);
        assert(q[0] == first);
        assert(w.deadlines.take(m - 1) =~= q.skip(1));
        if w.cache.dom().contains(key.packed()) {
            let attempts = next_attempt(w.cache[key.packed()].attempts);
            deadlines_wait(w.source, attempts);
            let deadline = Instant { nanos: (now.nanos + w.source.nanos_after(attempts)) as u128 };
            let new = RtoEntry { deadline, key };
            let at = rto::due_count(w.deadlines, deadline) as int;
            let u = w.fired(key, now);
            rto::later_deadline_is_not_due(w.deadlines, key, deadline, now);
            rto::due_count_splits(w.deadlines, deadline);
            rto::due_count_splits(w.deadlines, now);
            rto::due_count_splits(u.deadlines, now);
            assert(u.deadlines == w.deadlines.insert(at, new));
            if at < m - 1 {
                assert(w.deadlines[at].deadline.nanos <= now.nanos);
            }
            assert(due(u, now) =~= q.skip(1));
            every_due_tile_pass_is_sent_again(u, now, (budget - 1) as nat);
            assert(u.cache.dom() =~= s.cache.dom());
            resent_agrees(u.cache, s.cache, q.skip(1));
            assert(t.queue.queue =~= s.queue.queue + resent(s.cache, q));
            assert(u.deadlines[at] == new);
            assert(u.deadlines.contains(new));
            assert(t.deadlines.contains(new));
            assert forall|n: u64| #[trigger] s.cache.dom().contains(n) implies t.cache[n]
                == sent_again(s.cache[n], of_key(q, n).len(), now, s.source) && of_key(
                t.deadlines,
                n,
            ).len() == of_key(d, n).len() by {
                seqs::filter_first(q, is_of(n));
                seqs::filter_first(d, is_of(n));
                of_key_insert(w.deadlines, at, new, n);
                assert(u.cache.dom().contains(n));
            }
            assert forall|n: u64| #[trigger]
                s.cache.dom().contains(n) && of_key(q, n).len() > 0 implies exists|i: int|
                0 <= i < t.deadlines.len() && (#[trigger] t.deadlines[i]).key.packed() == n
                    && t.deadlines[i].deadline == t.cache[n].rto_deadline by {
                seqs::filter_first(q, is_of(n));
                assert(u.cache.dom().contains(n));
                if of_key(q.skip(1), n).len() == 0 {
                    assert(n == key.packed());
                    assert(t.cache[n] == u.cache[n]);
                    let i = choose|i: int| 0 <= i < t.deadlines.len() && t.deadlines[i] == new;
                    assert(t.deadlines[i].key.packed() == n);
                }
            }
            assert forall|e: RtoEntry| #[trigger]
                d.contains(e) && e.deadline.nanos > now.nanos implies t.deadlines.contains(e) by {
                let i = choose|i: int| 0 <= i < d.len() && d[i] == e;
                assert(w.deadlines[i - 1] == e);
                if i - 1 < at {
                    assert(u.deadlines[i - 1] == e);
                } else {
                    assert(u.deadlines[i] == e);
                }
                assert(u.deadlines.contains(e));
            }
        } else {
            assert(due(w, now) =~= q.skip(1));
            every_due_tile_pass_is_sent_again(w, now, budget);
            assert(Seq::<EmissionView>::empty() + resent(s.cache, q.skip(1)) =~= resent(
                s.cache,
                q.skip(1),
            ));
            assert forall|n: u64| #[trigger] s.cache.dom().contains(n) implies of_key(q, n)
                == of_key(q.skip(1), n) && of_key(d, n) == of_key(w.deadlines, n) by {
                seqs::filter_first(q, is_of(n));
                seqs::filter_first(d, is_of(n));
            }
            assert forall|e: RtoEntry| #[trigger]
                d.contains(e) && e.deadline.nanos > now.nanos implies t.deadlines.contains(e) by {
                let i = choose|i: int| 0 <= i < d.len() && d[i] == e;
                assert(w.deadlines[i - 1] == e);
                assert(w.deadlines.contains(e));
            }
        }
    }
}

/// These datagrams stand together among the emissions.
pub open spec fn holds_once(emissions: Seq<EmissionView>, fragments: Seq<Seq<u8>>) -> bool {
    exists|before: Seq<EmissionView>, after: Seq<EmissionView>|
        emissions == #[trigger] (before + as_sources(fragments) + after)
}

/// These datagrams stand together among the emissions, so often one behind the
/// other.
pub open spec fn holds_times(emissions: Seq<EmissionView>, fragments: Seq<Seq<u8>>, n: nat) -> bool
    decreases n,
{
    n == 0 || exists|before: Seq<EmissionView>, after: Seq<EmissionView>|
        emissions == #[trigger] (before + as_sources(fragments) + after) && holds_times(
            before,
            fragments,
            (n - 1) as nat,
        )
}

/// What is sent again for some deadlines holds the datagrams of each cached
/// tile-pass among them, and counts it.
proof fn resent_holds(cache: Map<u64, EntryView>, due: Seq<RtoEntry>, n: u64)
    requires
        cache.dom().contains(n),
        of_key(due, n).len() > 0,
    ensures
        holds_once(resent(cache, due), cache[n].fragments),
        live_count(cache, due) > 0,
    decreases due.len(),
{
    seqs::filter_empty(is_of(n));
    if due.len() == 0 {
        assert(due =~= Seq::empty());
    } else {
        seqs::filter_first(due, is_of(n));
        let rest = resent(cache, due.skip(1));
        let f = as_sources(cache[n].fragments);
        if due[0].key.packed() == n {
            assert(resent(cache, due) =~= Seq::empty() + f + rest);
        } else {
            resent_holds(cache, due.skip(1), n);
            let (a, b) = choose|a: Seq<EmissionView>, b: Seq<EmissionView>|
                rest == #[trigger] (a + f + b);
            let c = if cache.dom().contains(due[0].key.packed()) {
                as_sources(cache[due[0].key.packed()].fragments)
            } else {
                Seq::empty()
            };
            assert(resent(cache, due) =~= (c + a) + f + b);
        }
    }
}

/// More emissions hold what fewer hold.
proof fn more_holds_times(
    emissions: Seq<EmissionView>,
    more: Seq<EmissionView>,
    fragments: Seq<Seq<u8>>,
    n: nat,
)
    requires
        holds_times(emissions, fragments, n),
    ensures
        holds_times(emissions + more, fragments, n),
{
    if n > 0 {
        let f = as_sources(fragments);
        let (a, b) = choose|a: Seq<EmissionView>, b: Seq<EmissionView>|
            emissions == #[trigger] (a + f + b) && holds_times(a, fragments, (n - 1) as nat);
        assert(emissions + more =~= a + f + (b + more));
    }
}

/// A tile-pass alone with its key among deadlines is due exactly if its
/// deadline is.
proof fn due_if_reached(s: EmitterView, key: EmitKey, deadline: Instant, now: Instant)
    requires
        rto::by_deadline(s.deadlines),
        s.awaits(key, deadline),
    ensures
        of_key(due(s, now), key.packed()).len() == (if deadline.nanos <= now.nanos {
            1nat
        } else {
            0nat
        }),
{
    let n = key.packed();
    let d = s.deadlines;
    let m = rto::due_count(d, now) as int;
    rto::due_count_splits(d, now);
    let (a, b) = (d.take(m), d.skip(m));
    assert(d =~= a + b);
    Seq::filter_distributes_over_add(a, b, is_of(n));
    let (x, y) = (of_key(a, n), of_key(b, n));
    assert(x + y == seq![RtoEntry { deadline, key }]);
    assert((x + y).len() == 1);
    if x.len() > 0 {
        seqs::filter_member(a, is_of(n), 0);
        assert((x + y)[0] == x[0]);
        let i = choose|i: int| 0 <= i < a.len() && a[i] == x[0];
        assert(d[i] == x[0]);
    } else {
        seqs::filter_member(b, is_of(n), 0);
        assert((x + y)[0] == y[0]);
        let i = choose|i: int| 0 <= i < b.len() && b[i] == y[0];
        assert(d[m + i] == y[0]);
    }
}

/// A tile-pass that was submitted once awaits its deadline.
pub proof fn submitted_is_awaited(s: EmitterView, key: EmitKey, bytes: Seq<u8>, now: Instant)
    requires
        rto::by_deadline(s.deadlines),
        !tracks(s.deadlines, key.packed()),
    ensures
        s.submitted(key, bytes, now).awaits(
            key,
            s.submitted(key, bytes, now).cache[key.packed()].rto_deadline,
        ),
{
    let n = key.packed();
    let t = s.submitted(key, bytes, now);
    let deadline = t.cache[n].rto_deadline;
    let new = RtoEntry { deadline, key };
    let at = rto::due_count(s.deadlines, deadline) as int;
    rto::due_count_splits(s.deadlines, deadline);
    assert(t.deadlines == s.deadlines.insert(at, new));
    seqs::filter_none(s.deadlines, is_of(n));
    only_of_key(t.deadlines, at, n, s.deadlines);
}

/// The one deadline of a tile-pass is what stands among its deadlines.
proof fn only_of_key(deadlines: Seq<RtoEntry>, at: int, n: u64, others: Seq<RtoEntry>)
    requires
        0 <= at <= others.len(),
        deadlines.len() == others.len() + 1,
        deadlines == others.insert(at, deadlines[at]),
        deadlines[at].key.packed() == n,
        of_key(others, n) == Seq::<RtoEntry>::empty(),
    ensures
        of_key(deadlines, n) == seq![deadlines[at]],
{
    of_key_insert(others, at, deadlines[at], n);
    seqs::filter_keeps(deadlines, is_of(n), at);
    assert(of_key(deadlines, n) =~= seq![deadlines[at]]);
}

/// A tile-pass that nobody acknowledges and whose deadline is reached is sent
/// again, whatever else is due: behind what was queued stand all its datagrams,
/// byte for byte, it keeps its emission numbers, one attempt more is counted,
/// and it awaits one new deadline that lies ahead.
pub proof fn a_due_tile_pass_is_sent_again(
    s: EmitterView,
    key: EmitKey,
    deadline: Instant,
    now: Instant,
    budget: nat,
)
    requires
        s.is_covered(now, budget),
        s.awaits(key, deadline),
        deadline.nanos <= now.nanos,
    ensures
        ({
            let e = s.cache[key.packed()];
            let t = s.ticked(now, budget);
            let next = t.cache[key.packed()].rto_deadline;
            &&& t.cache[key.packed()] == sent_again(e, 1, now, s.source)
            &&& t.cache[key.packed()].attempts == next_attempt(e.attempts)
            &&& t.cache[key.packed()].wire_seqs == e.wire_seqs
            &&& t.queue.queue == s.queue.queue + resent(s.cache, due(s, now))
            &&& holds_once(resent(s.cache, due(s, now)), e.fragments)
            &&& t.stats.rto_fired >= one_more(s.stats.rto_fired)
            &&& t.awaits(key, next)
            &&& next.nanos > now.nanos
        }),
{
    let n = key.packed();
    let t = s.ticked(now, budget);
    every_due_tile_pass_is_sent_again(s, now, budget);
    due_if_reached(s, key, deadline, now);
    resent_holds(s.cache, due(s, now), n);
    let e = s.cache[n];
    deadlines_wait(s.source, next_attempt(e.attempts));
    let next = t.cache[n].rto_deadline;
    let i = choose|i: int|
        0 <= i < t.deadlines.len() && (#[trigger] t.deadlines[i]).key.packed() == n
            && t.deadlines[i].deadline == next;
    crate::reliable_emitter::key_packing_round_trip(key, n);
    crate::reliable_emitter::key_packing_round_trip(t.deadlines[i].key, n);
    seqs::filter_keeps(t.deadlines, is_of(n), i);
    assert(of_key(t.deadlines, n) =~= seq![RtoEntry { deadline: next, key }]);
}

/// A tile-pass whose deadline is not reached stays as it is, whatever else is
/// due.
pub proof fn an_early_tile_pass_waits(
    s: EmitterView,
    key: EmitKey,
    deadline: Instant,
    now: Instant,
    budget: nat,
)
    requires
        s.is_covered(now, budget),
        s.awaits(key, deadline),
        deadline.nanos > now.nanos,
    ensures
        s.ticked(now, budget).cache[key.packed()] == s.cache[key.packed()],
        s.ticked(now, budget).awaits(key, deadline),
{
    let n = key.packed();
    let t = s.ticked(now, budget);
    every_due_tile_pass_is_sent_again(s, now, budget);
    due_if_reached(s, key, deadline, now);
    let mine = RtoEntry { deadline, key };
    seqs::filter_member(s.deadlines, is_of(n), 0);
    assert(of_key(s.deadlines, n)[0] == mine);
    assert(s.deadlines.contains(mine));
    assert(t.deadlines.contains(mine));
    let i = choose|i: int| 0 <= i < t.deadlines.len() && t.deadlines[i] == mine;
    seqs::filter_keeps(t.deadlines, is_of(n), i);
    assert(of_key(t.deadlines, n) =~= seq![mine]);
}

/// A tile-pass that nobody acknowledges is sent again with every tick that
/// reaches its deadline and with no other, for any number of ticks and whatever
/// else is due: it stays cached with the same bytes under the same emission
/// numbers, each time counts one attempt and leaves one deadline that is backed
/// off by the number of attempts, and behind what was queued its datagrams stand
/// as often as it was sent again.
pub proof fn a_tile_pass_is_repeated_among_others(
    s: EmitterView,
    key: EmitKey,
    ticks: Seq<(Instant, nat)>,
)
    requires
        s.awaits(key, s.cache[key.packed()].rto_deadline),
        s.are_covered(ticks),
    ensures
        ({
            let e = s.cache[key.packed()];
            let r = Repetition { attempts: e.attempts, deadline: e.rto_deadline, repeats: 0 }.ticked_all(
                s.source,
                ticks,
            );
            let t = s.ticked_all(ticks);
            &&& t.awaits(key, r.deadline)
            &&& t.cache[key.packed()].attempts == r.attempts
            &&& t.cache[key.packed()].fragments == e.fragments
            &&& t.cache[key.packed()].wire_seqs == e.wire_seqs
            &&& t.source == s.source
            &&& t.stats.rto_fired >= that_many_more(s.stats.rto_fired, r.repeats)
            &&& t.queue.queue.len() >= s.queue.queue.len()
            &&& t.queue.queue.take(s.queue.queue.len() as int) == s.queue.queue
            &&& holds_times(t.queue.queue.skip(s.queue.queue.len() as int), e.fragments, r.repeats)
        }),
    decreases ticks.len(),
{
    let n = key.packed();
    let e = s.cache[n];
    let m = s.queue.queue.len() as int;
    let r0 = Repetition { attempts: e.attempts, deadline: e.rto_deadline, repeats: 0 };
    ticks_keep_everything(s, ticks);
    if ticks.len() > 0 {
        let init = ticks.drop_last();
        let (now, budget) = ticks.last();
        a_tile_pass_is_repeated_among_others(s, key, init);
        let t = s.ticked_all(init);
        let u = s.ticked_all(ticks);
        let r = r0.ticked_all(s.source, init);
        every_due_tile_pass_is_sent_again(t, now, budget);
        let more = resent(t.cache, due(t, now));
        let held = t.queue.queue.skip(m);
        assert(u.queue.queue.skip(m) =~= held + more);
        if r.deadline.nanos <= now.nanos {
            a_due_tile_pass_is_sent_again(t, key, r.deadline, now, budget);
            let f = as_sources(e.fragments);
            let (a, b) = choose|a: Seq<EmissionView>, b: Seq<EmissionView>|
                more == #[trigger] (a + f + b);
            more_holds_times(held, a, e.fragments, r.repeats);
            assert(held + more =~= (held + a) + f + b);
            assert(holds_times(held + more, e.fragments, r.repeats + 1));
        } else {
            an_early_tile_pass_waits(t, key, r.deadline, now, budget);
            more_holds_times(held, more, e.fragments, r.repeats);
        }
    }
}

/// A tick leaves no more deadlines than there were.
proof fn deadlines_do_not_pile_up(s: EmitterView, now: Instant, budget: nat)
    ensures
        s.ticked(now, budget).deadlines.len() <= s.deadlines.len(),
    decreases budget, s.deadlines.len(),
{
    if budget > 0 && s.has_due(now) {
        let key = s.deadlines[0].key;
        let w = s.without_soonest();
        if w.cache.dom().contains(key.packed()) {
            let u = w.fired(key, now);
            rto::due_count_bound(w.deadlines, u.cache[key.packed()].rto_deadline);
            deadlines_do_not_pile_up(u, now, (budget - 1) as nat);
        } else {
            deadlines_do_not_pile_up(w, now, budget);
        }
    }
}

/// Budgets for all deadlines cover what is due, with every tick.
pub proof fn budgets_for_all_cover(s: EmitterView, ticks: Seq<(Instant, nat)>)
    requires
        rto::by_deadline(s.deadlines),
        !s.deadlines_off,
        forall|i: int|
            0 <= i < ticks.len() ==> s.deadlines.len() <= (#[trigger] ticks[i]).1
                && ticks[i].0.nanos + rto::RTO_BACKOFF_MAX_NANOS <= u128::MAX,
    ensures
        s.are_covered(ticks),
        rto::by_deadline(s.ticked_all(ticks).deadlines),
        !s.ticked_all(ticks).deadlines_off,
        s.ticked_all(ticks).deadlines.len() <= s.deadlines.len(),
    decreases ticks.len(),
{
    if ticks.len() > 0 {
        let init = ticks.drop_last();
        let (now, budget) = ticks[ticks.len() - 1];
        assert forall|i: int| 0 <= i < init.len() implies s.deadlines.len() <= (
        #[trigger] init[i]).1 && init[i].0.nanos + rto::RTO_BACKOFF_MAX_NANOS <= u128::MAX by {
            assert(ticks[i] == init[i]);
        }
        budgets_for_all_cover(s, init);
        let t = s.ticked_all(init);
        rto::due_count_bound(t.deadlines, now);
        every_due_tile_pass_is_sent_again(t, now, budget);
        deadlines_do_not_pile_up(t, now, budget);
    }
}

} // verus!
