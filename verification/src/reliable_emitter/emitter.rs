//! Ties cache, output queue, numbering, parity groups and deadlines together.
//! One per session.
use crate::protocol::TileParityEnvelope;
use crate::reliable_emitter::cache::{CacheEntry, EntryView, RetransmitCache};
use crate::reliable_emitter::emission_queue::{Emission, EmissionQueue, EmissionView, QueueView};
use crate::reliable_emitter::lists::{FragmentList, WireSeqList};
use crate::reliable_emitter::parity::GroupBuilder;
use crate::reliable_emitter::rto::{
    rto_for_attempt, rto_for_smoothed_rtt, RtoEntry, RtoTimerWheel,
};
use crate::reliable_emitter::traits::{DatagramSender, SendOutcome};
use crate::reliable_emitter::wire_seq::WireSeqAllocator;
use crate::reliable_emitter::{
    cache, emission_queue, lists, parity, rto, EmitKey, CACHE_CAPACITY, FEC_GROUP_SIZE_K,
    PARITY_INTERLEAVE_OFFSET,
};
use crate::time::{Duration, Instant};
use crate::wire;
use crate::wire::{copy_range, push_be32, push_bytes};
use vstd::prelude::*;
use vstd::slice::slice_subrange;

verus! {

broadcast use vstd::slice::group_slice_axioms;

/// Default smoothed round trip, in nanoseconds.
pub const DEFAULT_SMOOTHED_RTT_NANOS: u128 = 20_000_000;

/// What retransmission deadlines are derived from.
#[derive(Debug, Clone, Copy, PartialEq, Eq, Structural)]
pub enum DeadlineSource {
    /// A smoothed round-trip time.
    SmoothedRtt(Duration),
    /// The measured 95th percentile of the acknowledgement latency, if there
    /// is a measurement.
    AckLatency(Option<Duration>),
}

impl DeadlineSource {
    /// Nanoseconds until retransmission after so many attempts.
    pub open spec fn nanos_after(self, attempts: u8) -> int {
        match self {
            DeadlineSource::SmoothedRtt(rtt) => rto::backed_off(
                rto::smoothed_deadline(rtt),
                attempts,
            ),
            DeadlineSource::AckLatency(p95) => rto::backed_off(
                rto::first_deadline(p95),
                attempts,
            ),
        }
    }

    /// The time until retransmission after so many attempts.
    pub fn after(&self, attempts: u8) -> (d: Duration)
        ensures
            d.nanos == self.nanos_after(attempts),
            d.nanos <= rto::RTO_BACKOFF_MAX_NANOS,
    {
        match *self {
            DeadlineSource::SmoothedRtt(rtt) => rto_for_smoothed_rtt(rtt, attempts),
            DeadlineSource::AckLatency(p95) => rto_for_attempt(p95, attempts),
        }
    }
}

/// What the emitter has done so far.
#[derive(Debug, Clone, Copy, PartialEq, Eq, Structural)]
pub struct EmitterStats {
    pub source_emitted: u64,
    pub parity_emitted: u64,
    pub rto_fired: u64,
    pub rto_max_retransmits_reached: u64,
    pub ack_hit: u64,
    pub ack_miss: u64,
    pub nack_hit: u64,
    pub nack_miss: u64,
    pub retransmit_attempts_total: u64,
}

impl Default for EmitterStats {
    fn default() -> (s: Self)
        ensures
            s == no_stats(),
    {
        EmitterStats {
            source_emitted: 0,
            parity_emitted: 0,
            rto_fired: 0,
            rto_max_retransmits_reached: 0,
            ack_hit: 0,
            ack_miss: 0,
            nack_hit: 0,
            nack_miss: 0,
            retransmit_attempts_total: 0,
        }
    }
}

/// All counters at zero.
pub open spec fn no_stats() -> EmitterStats {
    EmitterStats {
        source_emitted: 0,
        parity_emitted: 0,
        rto_fired: 0,
        rto_max_retransmits_reached: 0,
        ack_hit: 0,
        ack_miss: 0,
        nack_hit: 0,
        nack_miss: 0,
        retransmit_attempts_total: 0,
    }
}

/// One more, staying at the largest number.
pub open spec fn one_more(n: u64) -> u64 {
    if n == u64::MAX {
        n
    } else {
        (n + 1) as u64
    }
}

/// One attempt more, staying at the largest number.
pub open spec fn next_attempt(n: u8) -> u8 {
    if n == u8::MAX {
        n
    } else {
        (n + 1) as u8
    }
}

/// The datagram with its emission number written into bytes 8 to 11; one that
/// is too short for a number stays as it is.
pub open spec fn stamped(bytes: Seq<u8>, wire_seq: u32) -> Seq<u8> {
    if bytes.len() >= 12 {
        bytes.take(8) + wire::be32_bytes(wire_seq) + bytes.skip(12)
    } else {
        bytes
    }
}

/// The entry of a datagram sent for the first time.
pub open spec fn fresh_entry(
    bytes: Seq<u8>,
    wire_seq: u32,
    now: Instant,
    source: DeadlineSource,
) -> EntryView {
    EntryView {
        fragments: seq![bytes],
        wire_seqs: seq![wire_seq],
        queued_at: now,
        first_sent_at: now,
        last_sent_at: now,
        attempts: 0,
        rto_deadline: Instant { nanos: (now.nanos + source.nanos_after(0)) as u128 },
        probe: None,
    }
}

/// The deadlines with one more.
pub open spec fn with_deadline(s: Seq<RtoEntry>, key: EmitKey, deadline: Instant) -> Seq<RtoEntry> {
    s.insert(rto::due_count(s, deadline) as int, RtoEntry { deadline, key })
}

/// Datagrams as source emissions.
pub open spec fn as_sources(datagrams: Seq<Seq<u8>>) -> Seq<EmissionView> {
    datagrams.map_values(|b: Seq<u8>| EmissionView::Source(b))
}

/// The queue with these source datagrams added.
pub open spec fn with_sources(q: QueueView, sources: Seq<Seq<u8>>) -> QueueView {
    QueueView {
        queue: q.queue + as_sources(sources),
        pending: q.pending,
        idle_since: (if sources.len() > 0 {
            None
        } else {
            q.idle_since
        }),
    }
}

/// The bytes of the parity envelope of a full group.
pub open spec fn parity_envelope_bytes(first: u32, group: Seq<Seq<u8>>) -> Seq<u8> {
    seq![crate::protocol::TILE_PARITY_ENVELOPE] + wire::be32_bytes(first) + seq![
        FEC_GROUP_SIZE_K as u8,
        0u8,
    ] + wire::be16_bytes((group[0].len() % 0x1_0000) as u16) + parity::parity_of(group)
}

/// A datagram's bytes, whatever kind it is.
pub open spec fn emission_bytes(e: EmissionView) -> Seq<u8> {
    match e {
        EmissionView::Source(b) => b,
        EmissionView::Parity(b) => b,
    }
}

/// State of a [`ReliableTileEmitter`].
#[verifier::ext_equal]
pub struct EmitterView {
    /// What was sent and not acknowledged, by the number of its key.
    pub cache: Map<u64, EntryView>,
    /// Keys that are cached, most recently used first.
    pub recent: Seq<u64>,
    /// Entries that the cache gave up for want of room.
    pub evictions: u64,
    /// The next emission number.
    pub next_seq: u32,
    /// What is to be sent.
    pub queue: QueueView,
    /// The sources of the open parity group.
    pub group: Seq<Seq<u8>>,
    /// The emission number of the first of them.
    pub group_first: Option<u32>,
    /// The pending deadlines, soonest first.
    pub deadlines: Seq<RtoEntry>,
    /// Whether retransmission by deadline is switched off.
    pub deadlines_off: bool,
    pub source: DeadlineSource,
    pub stats: EmitterStats,
}

impl EmitterView {
    /// Nothing was sent yet.
    pub open spec fn fresh() -> EmitterView {
        EmitterView {
            cache: Map::empty(),
            recent: Seq::empty(),
            evictions: 0,
            next_seq: 0,
            queue: QueueView { queue: Seq::empty(), pending: Seq::empty(), idle_since: None },
            group: Seq::empty(),
            group_first: None,
            deadlines: Seq::empty(),
            deadlines_off: false,
            source: DeadlineSource::SmoothedRtt(Duration { nanos: DEFAULT_SMOOTHED_RTT_NANOS }),
            stats: no_stats(),
        }
    }

    /// One datagram submitted: it gets the next emission number, is cached
    /// with a deadline, joins the open parity group and is queued.  The parity
    /// of a full group is scheduled behind its sources.
    pub open spec fn submitted(self, key: EmitKey, bytes: Seq<u8>, now: Instant) -> EmitterView {
        let b = stamped(bytes, self.next_seq);
        let entry = fresh_entry(b, self.next_seq, now, self.source);
        let group = self.group.push(b);
        let first = if self.group_first is Some {
            self.group_first->0
        } else {
            self.next_seq
        };
        let full = group.len() >= FEC_GROUP_SIZE_K;
        let parity: (u32, Seq<u8>) = (
            ((first + PARITY_INTERLEAVE_OFFSET) % 0x1_0000_0000) as u32,
            parity_envelope_bytes(first, group),
        );
        EmitterView {
            cache: self.cache.insert(key.packed(), entry),
            recent: cache::after_put(self.recent, key.packed(), CACHE_CAPACITY as nat),
            evictions: self.evictions,
            next_seq: ((self.next_seq + 1) % 0x1_0000_0000) as u32,
            queue: QueueView {
                queue: self.queue.queue.push(EmissionView::Source(b)),
                pending: (if full {
                    self.queue.pending.insert(
                        emission_queue::place(self.queue.pending, parity),
                        parity,
                    )
                } else {
                    self.queue.pending
                }),
                idle_since: None,
            },
            group: (if full {
                Seq::empty()
            } else {
                group
            }),
            group_first: (if full {
                None
            } else {
                Some(first)
            }),
            deadlines: with_deadline(self.deadlines, key, entry.rto_deadline),
            deadlines_off: self.deadlines_off,
            source: self.source,
            stats: EmitterStats { source_emitted: one_more(self.stats.source_emitted), ..self.stats },
        }
    }

    /// Several datagrams submitted in order.
    pub open spec fn submitted_all(self, items: Seq<(EmitKey, Seq<u8>)>, now: Instant) -> EmitterView
        decreases items.len(),
    {
        if items.len() == 0 {
            self
        } else {
            self.submitted_all(items.drop_last(), now).submitted(
                items.last().0,
                items.last().1,
                now,
            )
        }
    }

    /// Acknowledged: the entries are gone; what was not cached counts as a
    /// miss.
    pub open spec fn acked(self, keys: Seq<EmitKey>) -> EmitterView
        decreases keys.len(),
    {
        if keys.len() == 0 {
            self
        } else {
            let s = self.acked(keys.drop_last());
            let n = keys.last().packed();
            EmitterView {
                cache: s.cache.remove(n),
                recent: cache::without(s.recent, n),
                stats: (if s.cache.dom().contains(n) {
                    EmitterStats { ack_hit: one_more(s.stats.ack_hit), ..s.stats }
                } else {
                    EmitterStats { ack_miss: one_more(s.stats.ack_miss), ..s.stats }
                }),
                ..s
            }
        }
    }

    /// The soonest deadline is due.
    pub open spec fn has_due(self, now: Instant) -> bool {
        &&& !self.deadlines_off
        &&& self.deadlines.len() > 0
        &&& self.deadlines[0].deadline.nanos <= now.nanos
    }

    /// The soonest deadline is taken off.
    pub open spec fn without_soonest(self) -> EmitterView {
        EmitterView { deadlines: self.deadlines.skip(1), ..self }
    }

    /// A cached tile-pass is sent again: the same bytes, with a deadline that
    /// is backed off by the number of attempts.
    pub open spec fn fired(self, key: EmitKey, now: Instant) -> EmitterView {
        let n = key.packed();
        let e = self.cache[n];
        let attempts = next_attempt(e.attempts);
        let deadline = Instant { nanos: (now.nanos + self.source.nanos_after(attempts)) as u128 };
        EmitterView {
            cache: self.cache.insert(
                n,
                EntryView { attempts, last_sent_at: now, rto_deadline: deadline, ..e },
            ),
            recent: cache::after_use(self.recent, n),
            queue: with_sources(self.queue, e.fragments),
            deadlines: with_deadline(self.deadlines, key, deadline),
            stats: EmitterStats {
                rto_fired: one_more(self.stats.rto_fired),
                retransmit_attempts_total: one_more(self.stats.retransmit_attempts_total),
                ..self.stats
            },
            ..self
        }
    }

    /// Up to `budget` due tile-passes are sent again, soonest first; deadlines
    /// of what is no longer cached are dropped and do not count.
    pub open spec fn ticked(self, now: Instant, budget: nat) -> EmitterView
        decreases budget, self.deadlines.len(),
    {
        if budget == 0 || !self.has_due(now) {
            self
        } else {
            let key = self.deadlines[0].key;
            let s = self.without_soonest();
            if s.cache.dom().contains(key.packed()) {
                s.fired(key, now).ticked(now, (budget - 1) as nat)
            } else {
                s.ticked(now, budget)
            }
        }
    }

    /// One fragment reported missing: if it is cached it is sent again.
    pub open spec fn nacked(self, key: EmitKey, frag_idx: u8, now: Instant) -> EmitterView {
        let n = key.packed();
        if !self.cache.dom().contains(n) {
            EmitterView {
                stats: EmitterStats { nack_miss: one_more(self.stats.nack_miss), ..self.stats },
                ..self
            }
        } else if frag_idx >= self.cache[n].fragments.len() {
            EmitterView { recent: cache::after_use(self.recent, n), ..self }
        } else {
            let e = self.cache[n];
            EmitterView {
                cache: self.cache.insert(
                    n,
                    EntryView { attempts: next_attempt(e.attempts), last_sent_at: now, ..e },
                ),
                recent: cache::after_use(self.recent, n),
                queue: with_sources(self.queue, seq![e.fragments[frag_idx as int]]),
                stats: EmitterStats {
                    nack_hit: one_more(self.stats.nack_hit),
                    retransmit_attempts_total: one_more(self.stats.retransmit_attempts_total),
                    ..self.stats
                },
                ..self
            }
        }
    }

    /// Several fragments reported missing, in order.
    pub open spec fn nacked_all(self, entries: Seq<(EmitKey, u8)>, now: Instant) -> EmitterView
        decreases entries.len(),
    {
        if entries.len() == 0 {
            self
        } else {
            self.nacked_all(entries.drop_last(), now).nacked(
                entries.last().0,
                entries.last().1,
                now,
            )
        }
    }

    /// The next emission, and the state without it.
    pub open spec fn emitted(self, now: Instant) -> (EmitterView, Option<EmissionView>) {
        let (q, e) = self.queue.popped(self.next_seq, now);
        (EmitterView { queue: q, ..self }, e)
    }

    /// What the transport's answer to an emission makes of the state without
    /// it: a sent parity is counted, a rejected datagram goes back to the
    /// front.
    pub open spec fn settled(self, e: EmissionView, outcome: SendOutcome) -> EmitterView {
        match outcome {
            SendOutcome::Sent => match e {
                EmissionView::Source(_) => self,
                EmissionView::Parity(_) => EmitterView {
                    stats: EmitterStats {
                        parity_emitted: one_more(self.stats.parity_emitted),
                        ..self.stats
                    },
                    ..self
                },
            },
            SendOutcome::Rejected => EmitterView {
                queue: QueueView {
                    queue: seq![e] + self.queue.queue,
                    pending: self.queue.pending,
                    idle_since: None,
                },
                ..self
            },
        }
    }

    /// The state after `n` emissions were sent.
    pub open spec fn after_sent(self, now: Instant, n: nat) -> EmitterView
        decreases n,
    {
        if n == 0 {
            self
        } else {
            let (s, e) = self.after_sent(now, (n - 1) as nat).emitted(now);
            s.settled(e->0, SendOutcome::Sent)
        }
    }

    /// The datagrams that are sent until then.
    pub open spec fn sent_bytes(self, now: Instant, n: nat) -> Seq<Seq<u8>>
        decreases n,
    {
        if n == 0 {
            Seq::empty()
        } else {
            let e = self.after_sent(now, (n - 1) as nat).emitted(now).1;
            self.sent_bytes(now, (n - 1) as nat).push(emission_bytes(e->0))
        }
    }

    /// `after` is the state once `n` emissions were sent and then either
    /// nothing was left or the transport rejected one.
    pub open spec fn drained(self, after: EmitterView, now: Instant, n: nat) -> bool {
        let (s, e) = self.after_sent(now, n).emitted(now);
        match e {
            None => after == s,
            Some(e) => after == s.settled(e, SendOutcome::Rejected),
        }
    }

    /// A cached tile-pass has a pending deadline, so it is sent again until it
    /// is acknowledged, cancelled or the session ends.
    pub open spec fn all_tracked(self) -> bool {
        forall|n: u64| #[trigger] self.cache.dom().contains(n) ==> tracks(self.deadlines, n)
    }
}

/// Some deadline is for the key with this number.
pub open spec fn tracks(deadlines: Seq<RtoEntry>, n: u64) -> bool {
    exists|i: int| 0 <= i < deadlines.len() && (#[trigger] deadlines[i]).key.packed() == n
}

/// Sends tile-passes and repeats them until they are acknowledged.
pub struct ReliableTileEmitter {
    cache: RetransmitCache,
    alloc: WireSeqAllocator,
    queue: EmissionQueue,
    group: GroupBuilder,
    rto: RtoTimerWheel,
    source: DeadlineSource,
    /// What has been done so far.
    pub stats: EmitterStats,
}

impl View for ReliableTileEmitter {
    type V = EmitterView;

    closed spec fn view(&self) -> EmitterView {
        EmitterView {
            cache: self.cache@,
            recent: self.cache.recent(),
            evictions: self.cache.counters().lru_eviction,
            next_seq: self.alloc.next,
            queue: self.queue@,
            group: self.group.pending(),
            group_first: self.group.first(),
            deadlines: self.rto@,
            deadlines_off: self.rto.is_disabled(),
            source: self.source,
            stats: self.stats,
        }
    }
}

/// The items of a batch.
pub open spec fn batch_items(items: Seq<(EmitKey, Vec<u8>)>) -> Seq<(EmitKey, Seq<u8>)> {
    items.map_values(|i: (EmitKey, Vec<u8>)| (i.0, i.1@))
}

/// Deadlines survive the addition of another.
proof fn tracks_more(deadlines: Seq<RtoEntry>, at: int, e: RtoEntry)
    requires
        0 <= at <= deadlines.len(),
    ensures
        tracks(deadlines.insert(at, e), e.key.packed()),
        forall|n: u64| tracks(deadlines, n) ==> #[trigger] tracks(deadlines.insert(at, e), n),
{
    let t = deadlines.insert(at, e);
    assert(t[at] == e);
    assert forall|n: u64| tracks(deadlines, n) implies #[trigger] tracks(t, n) by {
        let i = choose|i: int|
            0 <= i < deadlines.len() && (#[trigger] deadlines[i]).key.packed() == n;
        if i < at {
            assert(t[i] == deadlines[i]);
        } else {
            assert(t[i + 1] == deadlines[i]);
        }
    }
}

/// Deadlines of other keys survive the removal of the soonest.
proof fn tracks_rest(deadlines: Seq<RtoEntry>)
    requires
        deadlines.len() > 0,
    ensures
        forall|n: u64|
            tracks(deadlines, n) && n != deadlines[0].key.packed() ==> #[trigger] tracks(
                deadlines.skip(1),
                n,
            ),
{
    assert forall|n: u64|
        tracks(deadlines, n) && n != deadlines[0].key.packed() implies #[trigger] tracks(
        deadlines.skip(1),
        n,
    ) by {
        let i = choose|i: int|
            0 <= i < deadlines.len() && (#[trigger] deadlines[i]).key.packed() == n;
        assert(deadlines.skip(1)[i - 1] == deadlines[i]);
    }
}

impl ReliableTileEmitter {
    /// The emitter's invariant.
    pub closed spec fn wf(&self) -> bool {
        &&& self.cache.wf()
        &&& self.queue.wf()
        &&& self.group.wf()
        &&& self.group.size() == FEC_GROUP_SIZE_K
        &&& self.rto.wf()
        &&& self@.all_tracked()
    }

    pub fn new() -> (e: Self)
        ensures
            e.wf(),
            e@ == EmitterView::fresh(),
    {
        ReliableTileEmitter {
            cache: RetransmitCache::new(),
            alloc: WireSeqAllocator::new(),
            queue: EmissionQueue::new(),
            group: GroupBuilder::new(FEC_GROUP_SIZE_K),
            rto: RtoTimerWheel::new(),
            source: DeadlineSource::SmoothedRtt(Duration { nanos: DEFAULT_SMOOTHED_RTT_NANOS }),
            stats: EmitterStats::default(),
        }
    }

    /// Derives deadlines from a smoothed round-trip time; zero stands for one
    /// that was not measured.
    pub fn set_smoothed_rtt(&mut self, rtt: Duration)
        requires
            old(self).wf(),
        ensures
            final(self).wf(),
            final(self)@ == (EmitterView {
                source: DeadlineSource::SmoothedRtt(rtt),
                ..old(self)@
            }),
    {
        self.source = DeadlineSource::SmoothedRtt(rtt);
    }

    /// Derives deadlines from the measured acknowledgement latency.
    pub fn set_ack_deadline(&mut self, ack_p95: Option<Duration>)
        requires
            old(self).wf(),
        ensures
            final(self).wf(),
            final(self)@ == (EmitterView {
                source: DeadlineSource::AckLatency(ack_p95),
                ..old(self)@
            }),
    {
        self.source = DeadlineSource::AckLatency(ack_p95);
    }

    /// Switches retransmission by deadline off or on.
    pub fn set_deadlines_off(&mut self, off: bool)
        requires
            old(self).wf(),
        ensures
            final(self).wf(),
            final(self)@ == (EmitterView { deadlines_off: off, ..old(self)@ }),
    {
        self.rto.set_disabled(off);
    }

    /// What is held for a tile-pass that was sent and not acknowledged.
    pub fn cached(&self, key: &EmitKey) -> (r: Option<&CacheEntry>)
        ensures
            match r {
                Some(e) => self@.cache.dom().contains(key.packed()) && e@
                    == self@.cache[key.packed()],
                None => !self@.cache.dom().contains(key.packed()),
            },
    {
        self.cache.get(key)
    }

    /// Submits one source datagram, header included; its emission number is
    /// written in here.  The clock has room for the longest deadline.
    pub fn submit_one(&mut self, key: EmitKey, source_datagram_bytes: Vec<u8>, now: Instant)
        requires
            old(self).wf(),
            now.nanos + rto::RTO_BACKOFF_MAX_NANOS <= u128::MAX,
        ensures
            final(self).wf(),
            final(self)@ == old(self)@.submitted(key, source_datagram_bytes@, now),
    {
        let wire_seq: u32 = self.alloc.allocate();
        let bytes: Vec<u8> = stamp(source_datagram_bytes.as_slice(), wire_seq);
        let deadline = now.plus(self.source.after(0));
        let copy: Vec<u8> = copy_range(bytes.as_slice(), 0, bytes.len());
        assert(copy@ =~= bytes@);
        let entry = CacheEntry {
            fragments: FragmentList::of(vec![copy]),
            wire_seqs: WireSeqList::of(vec![wire_seq]),
            queued_at: now,
            first_sent_at: now,
            last_sent_at: now,
            attempts: 0,
            rto_deadline: deadline,
            probe: None,
        };
        assert(entry@.fragments =~= seq![bytes@]);
        assert(entry@.wire_seqs =~= seq![wire_seq]);
        let ghost fresh = entry@;
        self.cache.insert(key, entry);
        proof {
            rto::due_count_bound(self.rto@, deadline);
            tracks_more(
                self.rto@,
                rto::due_count(self.rto@, deadline) as int,
                RtoEntry { deadline, key },
            );
        }
        self.rto.schedule(key, deadline);
        let ghost group = self.group.pending().push(bytes@);
        match self.group.add(wire_seq, bytes.as_slice()) {
            Some(result) => {
                let first: u32 = result.group_first_wire_seq;
                let envelope = TileParityEnvelope {
                    group_first_wire_seq: first,
                    k: result.k,
                    parity_idx: 0,
                    group_first_payload_len: result.first_len,
                    parity_payload: result.parity,
                };
                let mut env_bytes: Vec<u8> = Vec::new();
                envelope.encode(&mut env_bytes);
                assert(env_bytes@ =~= parity_envelope_bytes(first, group));
                let emit_after: u32 = first.wrapping_add(PARITY_INTERLEAVE_OFFSET);
                assert(emit_after == (first + PARITY_INTERLEAVE_OFFSET) % 0x1_0000_0000);
                self.queue.schedule_parity(emit_after, env_bytes);
            },
            None => {},
        }
        self.queue.push_source(bytes);
        self.stats.source_emitted = self.stats.source_emitted.saturating_add(1);
        assert(self@ =~= old(self)@.submitted(key, source_datagram_bytes@, now));
    }

    /// Submits several datagrams in order.
    pub fn submit_batch(&mut self, items: Vec<(EmitKey, Vec<u8>)>, now: Instant)
        requires
            old(self).wf(),
            now.nanos + rto::RTO_BACKOFF_MAX_NANOS <= u128::MAX,
        ensures
            final(self).wf(),
            final(self)@ == old(self)@.submitted_all(batch_items(items@), now),
    {
        let ghost all = batch_items(items@);
        let mut i: usize = 0;
        assert(all.take(0) =~= Seq::empty());
        while i < items.len()
            invariant
                i <= items@.len(),
                now.nanos + rto::RTO_BACKOFF_MAX_NANOS <= u128::MAX,
                all == batch_items(items@),
                self.wf(),
                self@ == old(self)@.submitted_all(all.take(i as int), now),
            decreases items@.len() - i,
        {
            let copy: Vec<u8> = copy_range(items[i].1.as_slice(), 0, items[i].1.len());
            assert(copy@ =~= items@[i as int].1@);
            assert(all.take(i + 1).drop_last() =~= all.take(i as int));
            assert(all.take(i + 1).last() == all[i as int]);
            self.submit_one(items[i].0, copy, now);
            i = i + 1;
        }
        assert(all.take(items@.len() as int) =~= all);
    }

    /// Takes in acknowledgements.  Late and repeated ones do no harm.
    pub fn on_ack(&mut self, keys: &[EmitKey])
        requires
            old(self).wf(),
        ensures
            final(self).wf(),
            final(self)@ == old(self)@.acked(keys@),
    {
        let mut i: usize = 0;
        assert(keys@.take(0) =~= Seq::empty());
        while i < keys.len()
            invariant
                i <= keys@.len(),
                self.wf(),
                self@ == old(self)@.acked(keys@.take(i as int)),
            decreases keys@.len() - i,
        {
            let ghost before = self@;
            assert(keys@.take(i + 1).drop_last() =~= keys@.take(i as int));
            assert(keys@.take(i + 1).last() == keys@[i as int]);
            if self.cache.remove(&keys[i]).is_some() {
                self.stats.ack_hit = self.stats.ack_hit.saturating_add(1);
            } else {
                self.stats.ack_miss = self.stats.ack_miss.saturating_add(1);
            }
            i = i + 1;
            assert(self@ =~= old(self)@.acked(keys@.take(i as int)));
        }
        assert(keys@.take(keys@.len() as int) =~= keys@);
    }

    /// Sends up to `max_retransmits` due tile-passes again.  What is not
    /// reached stays due.  Nothing is ever given up.
    pub fn tick(&mut self, now: Instant, max_retransmits: usize)
        requires
            old(self).wf(),
            now.nanos + rto::RTO_BACKOFF_MAX_NANOS <= u128::MAX,
        ensures
            final(self).wf(),
            final(self)@ == old(self)@.ticked(now, max_retransmits as nat),
    {
        let mut left: usize = max_retransmits;
        while left > 0
            invariant
                left <= max_retransmits,
                now.nanos + rto::RTO_BACKOFF_MAX_NANOS <= u128::MAX,
                self.wf(),
                old(self)@.ticked(now, max_retransmits as nat) == self@.ticked(now, left as nat),
            decreases left, self@.deadlines.len(),
        {
            let ghost s = self@;
            let key: EmitKey = match self.rto.pop_due(now) {
                Some(key) => key,
                None => {
                    assert(self@ =~= s);
                    return;
                },
            };
            proof {
                assert(self@ =~= s.without_soonest());
                tracks_rest(s.deadlines);
            }
            if self.retransmit(key, now) {
                left = left - 1;
            }
        }
    }

    /// Sends a tile-pass again whose deadline was just taken off; does nothing
    /// if it is no longer cached.
    fn retransmit(&mut self, key: EmitKey, now: Instant) -> (sent: bool)
        requires
            old(self).cache.wf(),
            old(self).queue.wf(),
            old(self).group.wf(),
            old(self).group.size() == FEC_GROUP_SIZE_K,
            old(self).rto.wf(),
            now.nanos + rto::RTO_BACKOFF_MAX_NANOS <= u128::MAX,
            forall|n: u64| #[trigger]
                old(self)@.cache.dom().contains(n) && n != key.packed() ==> tracks(
                    old(self)@.deadlines,
                    n,
                ),
        ensures
            final(self).wf(),
            sent == old(self)@.cache.dom().contains(key.packed()),
            final(self)@ == (if sent {
                old(self)@.fired(key, now)
            } else {
                old(self)@
            }),
    {
        let source = self.source;
        let ghost e0 = self.cache@[key.packed()];
        let (deadline, frags) = match self.cache.get_mut(&key) {
            Some(entry) => {
                let attempts: u8 = entry.attempts.saturating_add(1);
                let deadline = now.plus(source.after(attempts));
                entry.attempts = attempts;
                entry.last_sent_at = now;
                entry.rto_deadline = deadline;
                let frags: Vec<Vec<u8>> = copy_fragments(&entry.fragments);
                (deadline, frags)
            },
            None => {
                assert(self@ =~= old(self)@);
                return false;
            },
        };
        assert(lists::contents(frags@) == e0.fragments);
        self.push_sources(frags);
        proof {
            rto::due_count_bound(self.rto@, deadline);
            tracks_more(
                self.rto@,
                rto::due_count(self.rto@, deadline) as int,
                RtoEntry { deadline, key },
            );
        }
        self.rto.schedule(key, deadline);
        self.stats.rto_fired = self.stats.rto_fired.saturating_add(1);
        self.stats.retransmit_attempts_total =
            self.stats.retransmit_attempts_total.saturating_add(1);
        assert(self@ =~= old(self)@.fired(key, now));
        true
    }

    /// Queues several source datagrams in order.
    fn push_sources(&mut self, frags: Vec<Vec<u8>>)
        ensures
            final(self)@ == (EmitterView {
                queue: with_sources(old(self)@.queue, lists::contents(frags@)),
                ..old(self)@
            }),
            final(self).cache == old(self).cache,
            final(self).group == old(self).group,
            final(self).rto == old(self).rto,
            final(self).queue.wf() == old(self).queue.wf(),
    {
        let ghost all = lists::contents(frags@);
        let mut i: usize = 0;
        assert(with_sources(self@.queue, all.take(0)) =~= self@.queue);
        while i < frags.len()
            invariant
                i <= frags@.len(),
                all == lists::contents(frags@),
                self.queue@ == with_sources(old(self).queue@, all.take(i as int)),
                self.cache == old(self).cache,
                self.alloc == old(self).alloc,
                self.group == old(self).group,
                self.rto == old(self).rto,
                self.source == old(self).source,
                self.stats == old(self).stats,
            decreases frags@.len() - i,
        {
            let copy: Vec<u8> = copy_range(frags[i].as_slice(), 0, frags[i].len());
            assert(copy@ =~= all[i as int]);
            self.queue.push_source(copy);
            i = i + 1;
            assert(self.queue@ =~= with_sources(old(self).queue@, all.take(i as int)));
        }
        assert(all.take(frags@.len() as int) =~= all);
    }

    /// Number of tile-passes sent and not acknowledged.
    pub fn pending_cache_entries(&self) -> (n: usize)
        ensures
            n == self@.cache.dom().len(),
    {
        self.cache.len()
    }

    /// Takes in reports of missing fragments: each that is cached is sent
    /// again at once.  The deadlines stay as they are.
    pub fn on_nack(&mut self, entries: &[(EmitKey, u8)], now: Instant)
        requires
            old(self).wf(),
        ensures
            final(self).wf(),
            final(self)@ == old(self)@.nacked_all(entries@, now),
    {
        let mut i: usize = 0;
        assert(entries@.take(0) =~= Seq::empty());
        while i < entries.len()
            invariant
                i <= entries@.len(),
                self.wf(),
                self@ == old(self)@.nacked_all(entries@.take(i as int), now),
            decreases entries@.len() - i,
        {
            assert(entries@.take(i + 1).drop_last() =~= entries@.take(i as int));
            assert(entries@.take(i + 1).last() == entries@[i as int]);
            self.nack_one(entries[i].0, entries[i].1, now);
            i = i + 1;
        }
        assert(entries@.take(entries@.len() as int) =~= entries@);
    }

    fn nack_one(&mut self, key: EmitKey, frag_idx: u8, now: Instant)
        requires
            old(self).wf(),
        ensures
            final(self).wf(),
            final(self)@ == old(self)@.nacked(key, frag_idx, now),
    {
        let ghost e0 = self.cache@[key.packed()];
        let found: Option<Vec<u8>> = match self.cache.get(&key) {
            Some(entry) => {
                let frags = entry.fragments.as_slice();
                if (frag_idx as usize) < frags.len() {
                    let f = &frags[frag_idx as usize];
                    let copy: Vec<u8> = copy_range(f.as_slice(), 0, f.len());
                    assert(copy@ =~= e0.fragments[frag_idx as int]);
                    Some(copy)
                } else {
                    None
                }
            },
            None => {
                self.stats.nack_miss = self.stats.nack_miss.saturating_add(1);
                assert(self@ =~= old(self)@.nacked(key, frag_idx, now));
                return;
            },
        };
        match found {
            Some(bytes) => {
                match self.cache.get_mut(&key) {
                    Some(entry) => {
                        entry.attempts = entry.attempts.saturating_add(1);
                        entry.last_sent_at = now;
                    },
                    None => {},
                }
                let ghost b = bytes@;
                self.queue.push_source(bytes);
                self.stats.nack_hit = self.stats.nack_hit.saturating_add(1);
                self.stats.retransmit_attempts_total =
                    self.stats.retransmit_attempts_total.saturating_add(1);
                assert(self.queue@ =~= with_sources(old(self).queue@, seq![b]));
                assert(self@ =~= old(self)@.nacked(key, frag_idx, now));
            },
            None => {
                let _ = self.cache.get_mut(&key);
                assert(self.cache@ =~= old(self).cache@);
                assert(self@ =~= old(self)@.nacked(key, frag_idx, now));
            },
        }
    }

    /// The tile's content has changed: nothing of it is sent again.
    pub fn cancel_for_tile(&mut self, tile_x: u8, tile_y: u8)
        requires
            old(self).wf(),
        ensures
            final(self).wf(),
            final(self)@ == (EmitterView {
                cache: cache::without_tile(old(self)@.cache, tile_x, tile_y),
                recent: old(self)@.recent.filter(cache::not_of_tile(tile_x, tile_y)),
                ..old(self)@
            }),
    {
        self.cache.cancel_for_tile(tile_x, tile_y);
    }

    /// The session is over: nothing is sent again.
    pub fn clear_cache(&mut self)
        requires
            old(self).wf(),
        ensures
            final(self).wf(),
            final(self)@ == (EmitterView {
                cache: Map::empty(),
                recent: Seq::empty(),
                ..old(self)@
            }),
    {
        self.cache.clear();
    }

    /// Whether something of the tile is sent and not acknowledged.
    pub fn has_cache_entries_for_tile(&self, tile_x: u8, tile_y: u8) -> (b: bool)
        ensures
            b == exists|n: u64| #[trigger]
                self@.cache.dom().contains(n) && EmitKey::unpacked(n).is_tile(tile_x, tile_y),
    {
        assert(self@.cache == self.cache@);
        self.cache.has_entries_for_tile(tile_x, tile_y)
    }

    /// Takes the next emission.
    pub fn next_emission(&mut self, now: Instant) -> (r: Option<Emission>)
        requires
            old(self).wf(),
        ensures
            final(self).wf(),
            final(self)@ == old(self)@.emitted(now).0,
            match (r, old(self)@.emitted(now).1) {
                (Some(got), Some(want)) => got@ == want,
                (None, None) => true,
                _ => false,
            },
    {
        let next: u32 = self.alloc.peek();
        let r = self.queue.pop(next, now);
        assert(self@ =~= old(self)@.emitted(now).0);
        r
    }

    /// Takes in the transport's answer to an emission that was taken.
    pub fn settle(&mut self, emission: Emission, outcome: SendOutcome)
        requires
            old(self).wf(),
        ensures
            final(self).wf(),
            final(self)@ == old(self)@.settled(emission@, outcome),
    {
        match outcome {
            SendOutcome::Sent => {
                if let Emission::Parity(_) = emission {
                    self.stats.parity_emitted = self.stats.parity_emitted.saturating_add(1);
                }
            },
            SendOutcome::Rejected => {
                self.queue.put_back(emission);
            },
        }
        assert(self@ =~= old(self)@.settled(emission@, outcome));
    }

    /// Hands emissions to the transport until nothing is left or it rejects
    /// one; that one is kept and tried first next time.  With a transport that
    /// keeps account, something is left exactly if it rejected one.
    pub fn drain<S: DatagramSender>(&mut self, sender: &mut S, now: Instant)
        requires
            old(self).wf(),
        ensures
            final(self).wf(),
            exists|n: nat| #[trigger]
                old(self)@.drained(final(self)@, now, n) && (old(sender).keeps_account()
                    ==> final(sender).keeps_account() && final(sender).accepted() == old(
                    sender,
                ).accepted() + old(self)@.sent_bytes(now, n) && final(sender).refusals() == old(
                    sender,
                ).refusals() + (if old(self)@.after_sent(now, n).emitted(now).1 is Some {
                    1nat
                } else {
                    0nat
                })),
    {
        let ghost v = self@;
        let ghost n: nat = 0;
        assert(sender.accepted() =~= old(sender).accepted() + v.sent_bytes(now, 0));
        loop
            invariant
                self.wf(),
                v == old(self)@,
                self@ == v.after_sent(now, n),
                old(sender).keeps_account() ==> sender.keeps_account() && sender.accepted() == old(
                    sender,
                ).accepted() + v.sent_bytes(now, n) && sender.refusals() == old(sender).refusals(),
            decreases self@.queue.queue.len() + self@.queue.pending.len(),
        {
            let ghost s = self@;
            proof {
                emission_shrinks(s, now);
            }
            match self.next_emission(now) {
                None => {
                    assert(v.drained(self@, now, n));
                    return;
                },
                Some(emission) => {
                    let outcome = match &emission {
                        Emission::Source(bytes) => sender.send(bytes.as_slice()),
                        Emission::Parity(bytes) => sender.send(bytes.as_slice()),
                    };
                    let ghost e = emission@;
                    let rejected: bool = match outcome {
                        SendOutcome::Sent => false,
                        SendOutcome::Rejected => true,
                    };
                    self.settle(emission, outcome);
                    if rejected {
                        assert(v.drained(self@, now, n));
                        return;
                    }
                    proof {
                        n = n + 1;
                        assert(self@ == v.after_sent(now, n));
                        assert(old(sender).keeps_account() ==> sender.accepted() =~= old(
                            sender,
                        ).accepted() + v.sent_bytes(now, n));
                    }
                },
            }
        }
    }
}

impl Default for ReliableTileEmitter {
    fn default() -> (e: Self)
        ensures
            e.wf(),
            e@ == EmitterView::fresh(),
    {
        ReliableTileEmitter::new()
    }
}

/// Taking an emission leaves less to be sent.
proof fn emission_shrinks(s: EmitterView, now: Instant)
    ensures
        s.emitted(now).1 is Some ==> s.emitted(now).0.queue.queue.len() + s.emitted(
            now,
        ).0.queue.pending.len() < s.queue.queue.len() + s.queue.pending.len(),
{
    emission_queue::ready_in_range(s.queue.pending, s.next_seq);
}

/// Writes the emission number into a datagram.
fn stamp(bytes: &[u8], wire_seq: u32) -> (out: Vec<u8>)
    ensures
        out@ == stamped(bytes@, wire_seq),
{
    if bytes.len() < 12 {
        let out: Vec<u8> = copy_range(bytes, 0, bytes.len());
        assert(out@ =~= bytes@);
        return out;
    }
    let mut out: Vec<u8> = copy_range(bytes, 0, 8);
    push_be32(&mut out, wire_seq);
    push_bytes(&mut out, slice_subrange(bytes, 12, bytes.len()));
    assert(out@ =~= stamped(bytes@, wire_seq));
    out
}

/// Copies the fragments of an entry.
fn copy_fragments(list: &FragmentList) -> (out: Vec<Vec<u8>>)
    ensures
        lists::contents(out@) == list@,
{
    let items = list.as_slice();
    let mut out: Vec<Vec<u8>> = Vec::new();
    let mut i: usize = 0;
    while i < items.len()
        invariant
            i <= items@.len(),
            out@.len() == i,
            forall|j: int| 0 <= j < i ==> (#[trigger] out@[j])@ == items@[j]@,
        decreases items@.len() - i,
    {
        let copy: Vec<u8> = copy_range(items[i].as_slice(), 0, items[i].len());
        assert(copy@ =~= items@[i as int]@);
        out.push(copy);
        i = i + 1;
    }
    assert(lists::contents(out@) =~= lists::contents(items@));
    out
}

/// The state of the fingerprint after one more byte.
pub open spec fn fnv_step(h: u32, b: u8) -> u32 {
    (((h ^ (b as u32)) * 0x0100_0193) % 0x1_0000_0000) as u32
}

/// Fingerprint of a datagram, its time stamp in bytes 12 to 15 left out.
pub open spec fn fnv(bytes: Seq<u8>) -> u32
    decreases bytes.len(),
{
    if bytes.len() == 0 {
        0x811c_9dc5
    } else {
        let h = fnv(bytes.drop_last());
        if 12 <= bytes.len() - 1 < 16 {
            h
        } else {
            fnv_step(h, bytes.last())
        }
    }
}

/// A byte of a datagram, or all ones where it is too short.
pub open spec fn byte_or_ones(bytes: Seq<u8>, at: int) -> u8 {
    if at < bytes.len() {
        bytes[at]
    } else {
        0xFF
    }
}

/// Describes what is sent again, for the log: a fingerprint of the first
/// fragment, its codec, its palette number and its palette flags.
pub fn first_fragment_fp(frags: &[Vec<u8>]) -> (r: (u32, u8, u8, u8))
    ensures
        frags@.len() == 0 ==> r == (0u32, 0xFFu8, 0xFFu8, 0xFFu8),
        frags@.len() > 0 ==> ({
            let f = frags@[0]@;
            &&& r.0 == fnv(f)
            &&& r.1 == (if f.len() > 18 {
                (f[18] / 2) as u8
            } else {
                0xFFu8
            })
            &&& r.2 == byte_or_ones(f, 25)
            &&& r.3 == byte_or_ones(f, 24)
        }),
{
    if frags.len() == 0 {
        return (0, 0xFF, 0xFF, 0xFF);
    }
    let f: &Vec<u8> = &frags[0];
    let n: usize = f.len();
    let mut h: u32 = 0x811c_9dc5;
    let mut i: usize = 0;
    assert(f@.take(0) =~= Seq::empty());
    while i < n
        invariant
            i <= n,
            n == f@.len(),
            h == fnv(f@.take(i as int)),
        decreases n - i,
    {
        assert(f@.take(i + 1).drop_last() =~= f@.take(i as int));
        if !(12 <= i && i < 16) {
            h = (h ^ (f[i] as u32)).wrapping_mul(0x0100_0193);
        }
        i = i + 1;
    }
    assert(f@.take(n as int) =~= f@);
    let codec: u8 = if n > 18 {
        f[18] / 2
    } else {
        0xFF
    };
    let flags: u8 = if n > 24 {
        f[24]
    } else {
        0xFF
    };
    let palette: u8 = if n > 25 {
        f[25]
    } else {
        0xFF
    };
    (h, codec, palette, flags)
}

/// Retransmission by deadline gives nothing up and invents nothing: the same
/// tile-passes stay cached, with the same bytes under the same emission
/// numbers, and the number of retransmissions stays within the budget.
pub proof fn tick_keeps_everything(s: EmitterView, now: Instant, budget: nat)
    ensures
        s.ticked(now, budget).cache.dom() == s.cache.dom(),
        forall|n: u64| #[trigger]
            s.cache.dom().contains(n) ==> s.ticked(now, budget).cache[n].fragments
                == s.cache[n].fragments && s.ticked(now, budget).cache[n].wire_seqs
                == s.cache[n].wire_seqs && s.ticked(now, budget).cache[n].first_sent_at
                == s.cache[n].first_sent_at,
        s.ticked(now, budget).stats.rto_fired <= s.stats.rto_fired + budget,
        s.ticked(now, budget).stats.rto_max_retransmits_reached
            == s.stats.rto_max_retransmits_reached,
        s.ticked(now, budget).next_seq == s.next_seq,
        s.ticked(now, budget).queue.queue.len() >= s.queue.queue.len(),
        s.ticked(now, budget).queue.queue.take(s.queue.queue.len() as int) == s.queue.queue,
    decreases budget, s.deadlines.len(),
{
    let r = s.ticked(now, budget);
    if budget == 0 || !s.has_due(now) {
        assert(r.queue.queue.take(s.queue.queue.len() as int) =~= s.queue.queue);
    } else {
        let key = s.deadlines[0].key;
        let t = s.without_soonest();
        if t.cache.dom().contains(key.packed()) {
            let u = t.fired(key, now);
            tick_keeps_everything(u, now, (budget - 1) as nat);
            assert(u.cache.dom() =~= s.cache.dom());
            let m = s.queue.queue.len() as int;
            assert(u.queue.queue.take(m) =~= s.queue.queue);
            assert(r.queue.queue.take(m) =~= r.queue.queue.take(u.queue.queue.len() as int).take(
                m,
            ));
        } else {
            tick_keeps_everything(t, now, budget);
        }
    }
}

/// What is acknowledged is cached no longer, however often it is
/// acknowledged; everything else stays as it is.
pub proof fn ack_removes_exactly(s: EmitterView, keys: Seq<EmitKey>, n: u64)
    ensures
        s.acked(keys).cache.dom().contains(n) <==> s.cache.dom().contains(n) && !(exists|i: int|
            0 <= i < keys.len() && (#[trigger] keys[i]).packed() == n),
        s.acked(keys).cache.dom().contains(n) ==> s.acked(keys).cache[n] == s.cache[n],
        s.acked(keys).queue == s.queue,
        s.acked(keys).deadlines == s.deadlines,
    decreases keys.len(),
{
    if keys.len() > 0 {
        let init = keys.drop_last();
        ack_removes_exactly(s, init, n);
        if exists|i: int| 0 <= i < init.len() && (#[trigger] init[i]).packed() == n {
            let i = choose|i: int| 0 <= i < init.len() && (#[trigger] init[i]).packed() == n;
            assert(keys[i].packed() == n);
        }
        if exists|i: int| 0 <= i < keys.len() && (#[trigger] keys[i]).packed() == n {
            let i = choose|i: int| 0 <= i < keys.len() && (#[trigger] keys[i]).packed() == n;
            if i < init.len() {
                assert(init[i].packed() == n);
            } else {
                assert(keys.last().packed() == n);
            }
        }
        if keys.last().packed() == n {
            assert(keys[keys.len() - 1].packed() == n);
        }
    }
}

/// A retransmission is never due again at once, whatever was measured, and
/// waits no longer than the longest time between retries.
pub proof fn deadlines_wait(source: DeadlineSource, attempts: u8)
    ensures
        0 < source.nanos_after(attempts) <= rto::RTO_BACKOFF_MAX_NANOS,
{
    match source {
        DeadlineSource::SmoothedRtt(rtt) => {
            rto::backed_off_is_positive(rto::smoothed_deadline(rtt), attempts);
        },
        DeadlineSource::AckLatency(p95) => {
            rto::backed_off_is_positive(rto::first_deadline(p95), attempts);
        },
    }
}

/// What was submitted and is still cached has a pending deadline, in every
/// state of an emitter, and what leaves the cache was acknowledged, cancelled
/// or cleared.
pub proof fn nothing_is_forgotten(e: ReliableTileEmitter, n: u64)
    requires
        e.wf(),
        e@.cache.dom().contains(n),
    ensures
        tracks(e@.deadlines, n),
{
}

/// The pending deadlines stand in their order, in every state of an emitter.
pub proof fn deadlines_are_in_order(e: ReliableTileEmitter)
    requires
        e.wf(),
    ensures
        rto::by_deadline(e@.deadlines),
{
}

/// A rejected datagram is not lost: it is the next to be sent.
pub proof fn rejected_is_next(s: EmitterView, e: EmissionView, now: Instant)
    ensures
        s.settled(e, SendOutcome::Rejected).queue.queue[0] == e,
        s.settled(e, SendOutcome::Rejected).queue.taken(now).1 == Some(e),
{
}

impl EmitterView {
    /// The state after some ticks, each with its time and its budget.
    pub open spec fn ticked_all(self, ticks: Seq<(Instant, nat)>) -> EmitterView
        decreases ticks.len(),
    {
        if ticks.len() == 0 {
            self
        } else {
            self.ticked_all(ticks.drop_last()).ticked(ticks.last().0, ticks.last().1)
        }
    }
}

/// However often retransmission by deadline is driven, it gives nothing up and
/// invents nothing: the same tile-passes stay cached with the same bytes under
/// the same emission numbers, and what was queued before stays in front.
pub proof fn ticks_keep_everything(s: EmitterView, ticks: Seq<(Instant, nat)>)
    ensures
        s.ticked_all(ticks).cache.dom() == s.cache.dom(),
        forall|n: u64| #[trigger]
            s.cache.dom().contains(n) ==> s.ticked_all(ticks).cache[n].fragments
                == s.cache[n].fragments && s.ticked_all(ticks).cache[n].wire_seqs
                == s.cache[n].wire_seqs && s.ticked_all(ticks).cache[n].first_sent_at
                == s.cache[n].first_sent_at,
        s.ticked_all(ticks).stats.rto_max_retransmits_reached
            == s.stats.rto_max_retransmits_reached,
        s.ticked_all(ticks).next_seq == s.next_seq,
        s.ticked_all(ticks).queue.queue.len() >= s.queue.queue.len(),
        s.ticked_all(ticks).queue.queue.take(s.queue.queue.len() as int) == s.queue.queue,
    decreases ticks.len(),
{
    let m = s.queue.queue.len() as int;
    if ticks.len() == 0 {
        assert(s.queue.queue.take(m) =~= s.queue.queue);
    } else {
        let t = s.ticked_all(ticks.drop_last());
        ticks_keep_everything(s, ticks.drop_last());
        tick_keeps_everything(t, ticks.last().0, ticks.last().1);
        let u = s.ticked_all(ticks);
        assert forall|n: u64| #[trigger] s.cache.dom().contains(n) implies u.cache[n].fragments
            == s.cache[n].fragments && u.cache[n].wire_seqs == s.cache[n].wire_seqs
            && u.cache[n].first_sent_at == s.cache[n].first_sent_at by {
            assert(t.cache.dom().contains(n));
        }
        assert(u.queue.queue.take(m) =~= u.queue.queue.take(t.queue.queue.len() as int).take(m));
    }
}

} // verus!
