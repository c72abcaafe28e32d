//! What a sender can rely on: what is submitted, reported missing or
//! acknowledged, and what becomes of it.
use crate::fec;
use crate::reliable_emitter::cache;
use crate::reliable_emitter::cache::EntryView;
use crate::reliable_emitter::emission_queue;
use crate::reliable_emitter::emission_queue::{EmissionView, QueueView, Waiting};
use crate::reliable_emitter::emitter::{
    as_sources, batch_items, deadlines_wait, emission_bytes, fnv, next_attempt, one_more, stamped,
    DeadlineSource, EmitterStats, EmitterView,
};
use crate::reliable_emitter::parity;
use crate::reliable_emitter::rto;
use crate::reliable_emitter::rto::RtoEntry;
use crate::reliable_emitter::traits::SendOutcome;
use crate::reliable_emitter::{key_packing_round_trip, EmitKey, FEC_GROUP_SIZE_K};
use crate::seqs;
use crate::time::{Duration, Instant};
use crate::wire;
use crate::xor;
use vstd::prelude::*;

verus! {

/// The emission number that a datagram carries.
pub open spec fn number_in(b: Seq<u8>) -> int {
    b[8] * 0x100_0000 + b[9] * 0x1_0000 + b[10] * 0x100 + b[11]
}

/// `b` is `bytes` but for the four bytes of the emission number, which is `n`.
pub open spec fn is_stamp_of(b: Seq<u8>, bytes: Seq<u8>, n: u32) -> bool {
    &&& b.len() == bytes.len()
    &&& forall|i: int|
        0 <= i < bytes.len() && !(bytes.len() >= 12 && 8 <= i < 12) ==> #[trigger] b[i] == bytes[i]
    &&& bytes.len() >= 12 ==> number_in(b) == n
}

/// A stamped datagram carries its number in bytes 8 to 11, highest byte first,
/// and is the same datagram elsewhere.
pub proof fn a_stamp_carries_its_number(bytes: Seq<u8>, n: u32)
    ensures
        is_stamp_of(stamped(bytes, n), bytes, n),
{
    if bytes.len() >= 12 {
        let b = stamped(bytes, n);
        assert(b.subrange(8, 12) =~= wire::be32_bytes(n));
        assert(b[8] == b.subrange(8, 12)[0]);
        assert(b[9] == b.subrange(8, 12)[1]);
        assert(b[10] == b.subrange(8, 12)[2]);
        assert(b[11] == b.subrange(8, 12)[3]);
    }
}

/// Datagrams are queued as sources one by one, whole and in order.
pub proof fn sources_are_whole(datagrams: Seq<Seq<u8>>, i: int)
    requires
        0 <= i < datagrams.len(),
    ensures
        as_sources(datagrams).len() == datagrams.len(),
        as_sources(datagrams)[i] == EmissionView::Source(datagrams[i]),
        emission_bytes(EmissionView::Source(datagrams[i])) == datagrams[i],
        emission_bytes(EmissionView::Parity(datagrams[i])) == datagrams[i],
{
}

/// One datagram more, at the end of the queue, which is idle no more.
pub open spec fn one_behind(before: QueueView, after: QueueView, b: Seq<u8>) -> bool {
    &&& after.queue.len() == before.queue.len() + 1
    &&& after.queue.drop_last() == before.queue
    &&& after.queue.last() == EmissionView::Source(b)
    &&& after.idle_since is None
}

/// What is submitted is queued whole behind what was there, under the next
/// emission number, and cached under its key just as it is queued: sent now, for
/// the first time, with a deadline ahead.  What else is cached stays as it is.
pub proof fn submitted_is_queued_and_cached(
    s: EmitterView,
    key: EmitKey,
    bytes: Seq<u8>,
    now: Instant,
)
    requires
        now.nanos + rto::RTO_BACKOFF_MAX_NANOS <= u128::MAX,
    ensures
        ({
            let t = s.submitted(key, bytes, now);
            let e = t.cache[key.packed()];
            &&& t.cache.dom() == s.cache.dom().insert(key.packed())
            &&& e.fragments.len() == 1 && e.wire_seqs.len() == 1
            &&& one_behind(s.queue, t.queue, e.fragments[0])
            &&& is_stamp_of(e.fragments[0], bytes, s.next_seq)
            &&& e.wire_seqs[0] == s.next_seq
            &&& t.next_seq == (if s.next_seq == u32::MAX {
                0
            } else {
                s.next_seq + 1
            })
            &&& e.attempts == 0 && e.probe is None
            &&& e.queued_at == now && e.first_sent_at == now && e.last_sent_at == now
            &&& now.nanos < e.rto_deadline.nanos <= now.nanos + rto::RTO_BACKOFF_MAX_NANOS
            &&& t.stats.source_emitted == (if s.stats.source_emitted == u64::MAX {
                u64::MAX
            } else {
                (s.stats.source_emitted + 1) as u64
            })
            &&& t.stats == (EmitterStats { source_emitted: t.stats.source_emitted, ..s.stats })
            &&& t.source == s.source && t.deadlines_off == s.deadlines_off
        }),
        forall|n: u64| #[trigger]
            s.cache.dom().contains(n) && n != key.packed() ==> s.submitted(
                key,
                bytes,
                now,
            ).cache[n] == s.cache[n],
{
    let t = s.submitted(key, bytes, now);
    a_stamp_carries_its_number(bytes, s.next_seq);
    deadlines_wait(s.source, 0);
    assert(t.cache.dom() =~= s.cache.dom().insert(key.packed()));
    assert(t.queue.queue.drop_last() =~= s.queue.queue);
}

/// A fragment that is reported missing is sent again whole: the datagram that
/// is cached stands once more at the end of the queue, byte for byte.  It stays
/// cached as it is, with one attempt more, and so does everything else.
pub proof fn a_missing_fragment_is_sent_whole(
    s: EmitterView,
    key: EmitKey,
    frag_idx: u8,
    now: Instant,
)
    requires
        s.cache.dom().contains(key.packed()),
        frag_idx < s.cache[key.packed()].fragments.len(),
    ensures
        ({
            let e = s.cache[key.packed()];
            let t = s.nacked(key, frag_idx, now);
            &&& one_behind(s.queue, t.queue, e.fragments[frag_idx as int])
            &&& t.queue.pending == s.queue.pending
            &&& t.cache.dom() == s.cache.dom()
            &&& t.cache[key.packed()].attempts == (if e.attempts == u8::MAX {
                u8::MAX
            } else {
                (e.attempts + 1) as u8
            })
            &&& t.cache[key.packed()] == (EntryView {
                attempts: t.cache[key.packed()].attempts,
                last_sent_at: now,
                ..e
            })
            &&& t.deadlines == s.deadlines
            &&& t.next_seq == s.next_seq
            &&& t.group == s.group && t.group_first == s.group_first
            &&& t.stats.nack_hit == (if s.stats.nack_hit == u64::MAX {
                u64::MAX
            } else {
                (s.stats.nack_hit + 1) as u64
            })
            &&& t.stats.nack_miss == s.stats.nack_miss
        }),
        forall|n: u64| #[trigger]
            s.cache.dom().contains(n) && n != key.packed() ==> s.nacked(
                key,
                frag_idx,
                now,
            ).cache[n] == s.cache[n],
{
    let t = s.nacked(key, frag_idx, now);
    let e = s.cache[key.packed()];
    assert(t.cache.dom() =~= s.cache.dom());
    assert(as_sources(seq![e.fragments[frag_idx as int]]) =~= seq![
        EmissionView::Source(e.fragments[frag_idx as int]),
    ]);
    assert(t.queue.queue.drop_last() =~= s.queue.queue);
}

/// A report that matches nothing cached, or no fragment of it, sends nothing
/// and changes nothing that is cached.
pub proof fn a_stray_report_sends_nothing(
    s: EmitterView,
    key: EmitKey,
    frag_idx: u8,
    now: Instant,
)
    requires
        !(s.cache.dom().contains(key.packed()) && frag_idx
            < s.cache[key.packed()].fragments.len()),
    ensures
        s.nacked(key, frag_idx, now).queue == s.queue,
        s.nacked(key, frag_idx, now).cache == s.cache,
        s.nacked(key, frag_idx, now).deadlines == s.deadlines,
        s.nacked(key, frag_idx, now).stats.nack_hit == s.stats.nack_hit,
        s.nacked(key, frag_idx, now).stats.retransmit_attempts_total
            == s.stats.retransmit_attempts_total,
        s.cache.dom().contains(key.packed()) ==> s.nacked(key, frag_idx, now).stats == s.stats,
        !s.cache.dom().contains(key.packed()) && s.stats.nack_miss < u64::MAX ==> s.nacked(
            key,
            frag_idx,
            now,
        ).stats.nack_miss == s.stats.nack_miss + 1,
{
}

/// What is reported missing right after it was submitted is in the queue twice,
/// both times the same datagram.
pub proof fn submitted_and_missing_is_queued_twice(
    s: EmitterView,
    key: EmitKey,
    bytes: Seq<u8>,
    now: Instant,
    later: Instant,
)
    requires
        now.nanos + rto::RTO_BACKOFF_MAX_NANOS <= u128::MAX,
    ensures
        ({
            let q = s.submitted(key, bytes, now).nacked(key, 0, later).queue.queue;
            let n = s.queue.queue.len() as int;
            &&& q.len() == n + 2
            &&& q.take(n) == s.queue.queue
            &&& q[n] == q[n + 1]
            &&& q[n] is Source && is_stamp_of(q[n]->Source_0, bytes, s.next_seq)
        }),
{
    let t = s.submitted(key, bytes, now);
    let u = t.nacked(key, 0, later);
    submitted_is_queued_and_cached(s, key, bytes, now);
    a_missing_fragment_is_sent_whole(t, key, 0, later);
    let n = s.queue.queue.len() as int;
    assert(u.queue.queue[n] == u.queue.queue.drop_last()[n]);
    assert(u.queue.queue.take(n) =~= u.queue.queue.drop_last().drop_last());
}

/// Reports are taken in one after the other.
pub proof fn reports_add_up(
    s: EmitterView,
    a: Seq<(EmitKey, u8)>,
    b: Seq<(EmitKey, u8)>,
    now: Instant,
)
    ensures
        s.nacked_all(a + b, now) == s.nacked_all(a, now).nacked_all(b, now),
        a.len() == 0 ==> s.nacked_all(a, now) == s,
        a.len() == 1 ==> s.nacked_all(a, now) == s.nacked(a[0].0, a[0].1, now),
    decreases b.len(),
{
    reveal_with_fuel(EmitterView::nacked_all, 2);
    if b.len() == 0 {
        assert(a + b =~= a);
    } else {
        assert((a + b).drop_last() =~= a + b.drop_last());
        reports_add_up(s, a, b.drop_last(), now);
    }
    if a.len() == 1 {
        assert(a.drop_last() =~= Seq::empty());
    }
}

/// Submissions are taken in one after the other.
pub proof fn submissions_add_up(
    s: EmitterView,
    a: Seq<(EmitKey, Seq<u8>)>,
    b: Seq<(EmitKey, Seq<u8>)>,
    now: Instant,
)
    ensures
        s.submitted_all(a + b, now) == s.submitted_all(a, now).submitted_all(b, now),
        a.len() == 0 ==> s.submitted_all(a, now) == s,
        a.len() == 1 ==> s.submitted_all(a, now) == s.submitted(a[0].0, a[0].1, now),
    decreases b.len(),
{
    reveal_with_fuel(EmitterView::submitted_all, 2);
    if b.len() == 0 {
        assert(a + b =~= a);
    } else {
        assert((a + b).drop_last() =~= a + b.drop_last());
        submissions_add_up(s, a, b.drop_last(), now);
    }
    if a.len() == 1 {
        assert(a.drop_last() =~= Seq::empty());
    }
}

/// Every acknowledgement counts once: as a hit if its tile-pass was cached then,
/// and else as a miss.  Nothing is queued for it.
pub proof fn acknowledgements_are_counted(s: EmitterView, keys: Seq<EmitKey>)
    requires
        s.stats.ack_hit + s.stats.ack_miss + keys.len() <= u64::MAX,
    ensures
        ({
            let t = s.acked(keys);
            &&& t.stats.ack_hit + t.stats.ack_miss == s.stats.ack_hit + s.stats.ack_miss
                + keys.len()
            &&& t.stats.ack_hit >= s.stats.ack_hit
            &&& t.stats.ack_miss >= s.stats.ack_miss
            &&& t.stats == (EmitterStats {
                ack_hit: t.stats.ack_hit,
                ack_miss: t.stats.ack_miss,
                ..s.stats
            })
            &&& t.queue == s.queue && t.deadlines == s.deadlines
            &&& t.next_seq == s.next_seq && t.source == s.source
            &&& t.group == s.group && t.group_first == s.group_first
            &&& keys.len() == 1 && s.cache.dom().contains(keys[0].packed()) ==> t.stats.ack_hit
                == s.stats.ack_hit + 1
            &&& keys.len() == 1 && !s.cache.dom().contains(keys[0].packed()) ==> t.stats.ack_miss
                == s.stats.ack_miss + 1
        }),
    decreases keys.len(),
{
    if keys.len() > 0 {
        acknowledgements_are_counted(s, keys.drop_last());
        if keys.len() == 1 {
            assert(keys.drop_last() =~= Seq::empty());
            assert(s.acked(keys.drop_last()) == s);
        }
    }
}

// ---------------------------------------------------------------------------
// Parity
// ---------------------------------------------------------------------------

impl EmitterView {
    /// The sources of the open parity group carry emission numbers that follow
    /// each other, up to the last one given.
    pub open spec fn is_numbered(self) -> bool {
        &&& self.group.len() < 10
        &&& self.group_first is Some <==> self.group.len() > 0
        &&& forall|i: int|
            0 <= i < self.group.len() ==> (#[trigger] self.group[i]).len() >= 12 && number_in(
                self.group[i],
            ) == (self.group_first->0 + i) % 0x1_0000_0000
        &&& self.group.len() > 0 ==> self.next_seq == (self.group_first->0 + self.group.len())
            % 0x1_0000_0000
    }
}

/// Nothing waits before anything is submitted.
pub proof fn a_new_group_is_numbered()
    ensures
        EmitterView::fresh().is_numbered(),
        EmitterView::fresh().queue.queue.len() == 0,
        EmitterView::fresh().queue.pending.len() == 0,
        EmitterView::fresh().cache == Map::<u64, EntryView>::empty(),
        EmitterView::fresh().deadlines.len() == 0,
        EmitterView::fresh().next_seq == 0,
{
}

/// One parity more waits, with these bytes.
pub open spec fn one_waits(before: Seq<Waiting>, after: Seq<Waiting>, w: Waiting) -> bool {
    exists|at: int|
        0 <= at < after.len() && #[trigger] after[at] == w && after.remove(at) == before
}

/// The envelope is for a group whose sources are these, from this number on:
/// the sources carry the numbers that follow each other from it, and each of
/// them is the exclusive or of the parity and all others, padded on the left.
#[verifier::opaque]
pub open spec fn is_parity_for(env: Seq<u8>, sources: Seq<Seq<u8>>) -> bool {
    let first = env[1] * 0x100_0000 + env[2] * 0x1_0000 + env[3] * 0x100 + env[4];
    let n = fec::longest(sources);
    &&& env.len() == 9 + n
    &&& env[0] == 4
    &&& env[5] == sources.len()
    &&& env[6] == 0
    &&& env[7] * 0x100 + env[8] == sources[0].len() % 0x1_0000
    &&& forall|i: int|
        0 <= i < sources.len() ==> number_in(#[trigger] sources[i]) == (first + i) % 0x1_0000_0000
    &&& forall|j: int|
        0 <= j < sources.len() ==> #[trigger] recovered(env.skip(9), sources, j) == xor::pad_left(
            sources[j],
            n,
        )
}

/// What a receiver makes of the parity and all sources but one.
pub open spec fn recovered(parity: Seq<u8>, sources: Seq<Seq<u8>>, j: int) -> Seq<u8> {
    xor::xor_all(
        seq![parity] + parity::padded(sources.remove(j), fec::longest(sources)),
        fec::longest(sources),
    )
}

/// The source that fills a group schedules its parity, and no other does.  The
/// parity's envelope names the number that the group's first source carries, and
/// with it any one source of the group is recovered from the others.
pub proof fn a_full_group_is_protected(s: EmitterView, key: EmitKey, bytes: Seq<u8>, now: Instant)
    requires
        s.is_numbered(),
        bytes.len() >= 12,
    ensures
        ({
            let t = s.submitted(key, bytes, now);
            let sources = s.group.push(t.cache[key.packed()].fragments[0]);
            &&& t.is_numbered()
            &&& sources.len() < 10 ==> t.group == sources && t.queue.pending == s.queue.pending
            &&& sources.len() == 10 ==> t.group.len() == 0 && exists|w: Waiting| #[trigger]
                one_waits(s.queue.pending, t.queue.pending, w) && is_parity_for(w.1, sources)
                    && w.0 == (number_in(sources[0]) + 20) % 0x1_0000_0000
        }),
{
    let t = s.submitted(key, bytes, now);
    numbering_goes_on(s, key, bytes, now);
    if s.group.len() + 1 == FEC_GROUP_SIZE_K {
        parity_is_scheduled(s, key, bytes, now);
    }
}

/// The number of the first source of the group that a source joins.
spec fn first_of(s: EmitterView) -> u32 {
    if s.group_first is Some {
        s.group_first->0
    } else {
        s.next_seq
    }
}

/// The sources of the group that a source joins are numbered.
proof fn joined_numbers(s: EmitterView, bytes: Seq<u8>)
    requires
        s.is_numbered(),
        bytes.len() >= 12,
    ensures
        forall|i: int|
            0 <= i < s.group.len() + 1 ==> (#[trigger] s.group.push(
                stamped(bytes, s.next_seq),
            )[i]).len() >= 12 && number_in(s.group.push(stamped(bytes, s.next_seq))[i]) == (
            first_of(s) + i) % 0x1_0000_0000,
{
    a_stamp_carries_its_number(bytes, s.next_seq);
    let sources = s.group.push(stamped(bytes, s.next_seq));
    assert forall|i: int| 0 <= i < s.group.len() + 1 implies (#[trigger] sources[i]).len() >= 12
        && number_in(sources[i]) == (first_of(s) + i) % 0x1_0000_0000 by {
        if i < s.group.len() {
            assert(sources[i] == s.group[i]);
        } else if s.group.len() == 0 {
            assert(first_of(s) + i == s.next_seq);
        }
    }
}

proof fn numbering_goes_on(s: EmitterView, key: EmitKey, bytes: Seq<u8>, now: Instant)
    requires
        s.is_numbered(),
        bytes.len() >= 12,
    ensures
        s.submitted(key, bytes, now).is_numbered(),
        s.group.len() + 1 < FEC_GROUP_SIZE_K ==> s.submitted(key, bytes, now).group
            == s.group.push(stamped(bytes, s.next_seq)) && s.submitted(
            key,
            bytes,
            now,
        ).queue.pending == s.queue.pending,
        s.group.len() + 1 == FEC_GROUP_SIZE_K ==> s.submitted(key, bytes, now).group.len() == 0,
        s.submitted(key, bytes, now).cache[key.packed()].fragments[0] == stamped(
            bytes,
            s.next_seq,
        ),
{
    let t = s.submitted(key, bytes, now);
    joined_numbers(s, bytes);
    if s.group.len() + 1 < FEC_GROUP_SIZE_K {
        assert(t.group_first == Some(first_of(s)));
        if s.group.len() > 0 {
            next_number(first_of(s), s.group.len());
        }
    }
}

proof fn parity_is_scheduled(s: EmitterView, key: EmitKey, bytes: Seq<u8>, now: Instant)
    requires
        s.is_numbered(),
        bytes.len() >= 12,
        s.group.len() + 1 == FEC_GROUP_SIZE_K,
    ensures
        exists|w: Waiting| #[trigger]
            one_waits(s.queue.pending, s.submitted(key, bytes, now).queue.pending, w)
                && is_parity_for(w.1, s.group.push(stamped(bytes, s.next_seq))) && w.0 == (
            number_in(s.group.push(stamped(bytes, s.next_seq))[0]) + 20) % 0x1_0000_0000,
{
    let sources = s.group.push(stamped(bytes, s.next_seq));
    let first = first_of(s);
    joined_numbers(s, bytes);
    pending_of_full(s, key, bytes, now);
    let after = s.submitted(key, bytes, now).queue.pending;
    let w = choose|w: Waiting| #[trigger]
        one_waits(s.queue.pending, after, w) && w.0 == (first + 20) % 0x1_0000_0000 && w.1
            == crate::reliable_emitter::emitter::parity_envelope_bytes(first, sources);
    assert forall|i: int| 0 <= i < sources.len() implies number_in(#[trigger] sources[i]) == (first
        + i) % 0x1_0000_0000 by {}
    envelope_is_for(first, sources);
    assert(number_in(sources[0]) == (first + 0) % 0x1_0000_0000);
}

proof fn pending_of_full(s: EmitterView, key: EmitKey, bytes: Seq<u8>, now: Instant)
    requires
        s.group.len() + 1 == FEC_GROUP_SIZE_K,
    ensures
        exists|w: Waiting| #[trigger]
            one_waits(s.queue.pending, s.submitted(key, bytes, now).queue.pending, w) && w.0 == (
            first_of(s) + 20) % 0x1_0000_0000 && w.1
                == crate::reliable_emitter::emitter::parity_envelope_bytes(
                first_of(s),
                s.group.push(stamped(bytes, s.next_seq)),
            ),
{
    let w: Waiting = (
        ((first_of(s) + 20) % 0x1_0000_0000) as u32,
        crate::reliable_emitter::emitter::parity_envelope_bytes(
            first_of(s),
            s.group.push(stamped(bytes, s.next_seq)),
        ),
    );
    let after = s.submitted(key, bytes, now).queue.pending;
    assert(after == s.queue.pending.insert(emission_queue::place(s.queue.pending, w), w));
    one_more_waits(s.queue.pending, w);
}

proof fn one_more_waits(before: Seq<Waiting>, w: Waiting)
    ensures
        one_waits(before, before.insert(emission_queue::place(before, w), w), w),
{
    let at = emission_queue::place(before, w);
    emission_queue::place_in_range(before, w);
    let after = before.insert(at, w);
    assert(after.remove(at) =~= before);
    assert(after[at] == w);
}

/// The number after the next.
proof fn next_number(first: u32, n: nat)
    ensures
        ((first + n) % 0x1_0000_0000 + 1) % 0x1_0000_0000 == (first + n + 1) % 0x1_0000_0000,
{
}

/// The envelope of a group from this number on is for the sources with the
/// numbers from it on.
proof fn envelope_is_for(first: u32, sources: Seq<Seq<u8>>)
    requires
        sources.len() == FEC_GROUP_SIZE_K,
        forall|i: int|
            0 <= i < sources.len() ==> number_in(#[trigger] sources[i]) == (first + i)
                % 0x1_0000_0000,
    ensures
        is_parity_for(
            crate::reliable_emitter::emitter::parity_envelope_bytes(first, sources),
            sources,
        ),
{
    let env = crate::reliable_emitter::emitter::parity_envelope_bytes(first, sources);
    let n = fec::longest(sources);
    let p = parity::parity_of(sources);
    reveal(is_parity_for);
    xor::xor_all_len(parity::padded(sources, n), n);
    envelope_header(first, (sources[0].len() % 0x1_0000) as u16, p);
    assert(env =~= seq![4u8] + wire::be32_bytes(first) + seq![10u8, 0u8] + wire::be16_bytes(
        (sources[0].len() % 0x1_0000) as u16,
    ) + p);
    assert forall|j: int| 0 <= j < sources.len() implies #[trigger] recovered(
        env.skip(9),
        sources,
        j,
    ) == xor::pad_left(sources[j], n) by {
        recovery(sources, j);
    }
}

proof fn recovery(sources: Seq<Seq<u8>>, j: int)
    requires
        0 <= j < sources.len(),
    ensures
        recovered(parity::parity_of(sources), sources, j) == xor::pad_left(
            sources[j],
            fec::longest(sources),
        ),
{
    let n = fec::longest(sources);
    parity::lost_source_is_recovered(sources, j);
    assert(parity::padded(sources, n).remove(j) =~= parity::padded(sources.remove(j), n));
}

/// What stands before the parity.
proof fn envelope_header(first: u32, l: u16, p: Seq<u8>)
    ensures
        ({
            let env = seq![4u8] + wire::be32_bytes(first) + seq![10u8, 0u8] + wire::be16_bytes(l)
                + p;
            &&& env.len() == 9 + p.len()
            &&& env[0] == 4
            &&& env[5] == 10
            &&& env[6] == 0
            &&& env[1] * 0x100_0000 + env[2] * 0x1_0000 + env[3] * 0x100 + env[4] == first
            &&& env[7] * 0x100 + env[8] == l
            &&& env.skip(9) == p
        }),
{
    let env = seq![4u8] + wire::be32_bytes(first) + seq![10u8, 0u8] + wire::be16_bytes(l) + p;
    assert(env.skip(9) =~= p);
}

/// An exclusive or of byte strings is taken byte by byte: with one string it is
/// that string, and one string more is applied to every byte.
pub proof fn exclusive_or_is_bytewise(parts: Seq<Seq<u8>>, n: nat, i: int)
    requires
        xor::all_of_len(parts, n),
        0 <= i < n,
    ensures
        xor::xor_all(parts, n).len() == n,
        parts.len() == 0 ==> xor::xor_all(parts, n)[i] == 0,
        parts.len() == 1 ==> xor::xor_all(parts, n)[i] == parts[0][i],
        parts.len() > 0 ==> xor::xor_all(parts, n)[i] == xor::xor_all(parts.drop_last(), n)[i]
            ^ parts.last()[i],
{
    xor::xor_all_len(parts, n);
    xor::xor_all_len(parts.drop_last(), n);
    if parts.len() == 1 {
        assert(parts.drop_last() =~= Seq::empty());
        let x = parts[0][i];
        assert(0u8 ^ x == x) by (bit_vector);
    }
}

// ---------------------------------------------------------------------------
// Hand-over to the transport
// ---------------------------------------------------------------------------

/// While no parity waits, draining hands over exactly what is queued, from the
/// front, and leaves the rest.
pub proof fn draining_hands_over_the_queue(s: EmitterView, now: Instant, n: nat)
    requires
        s.queue.pending.len() == 0,
        n <= s.queue.queue.len(),
    ensures
        s.sent_bytes(now, n).len() == n,
        forall|i: int|
            0 <= i < n ==> #[trigger] s.sent_bytes(now, n)[i] == (match s.queue.queue[i] {
                EmissionView::Source(b) => b,
                EmissionView::Parity(b) => b,
            }),
        s.after_sent(now, n).queue.queue == s.queue.queue.skip(n as int),
        s.after_sent(now, n).queue.pending.len() == 0,
        s.after_sent(now, n).cache == s.cache,
        s.after_sent(now, n).deadlines == s.deadlines,
        s.after_sent(now, n).next_seq == s.next_seq,
    decreases n,
{
    if n == 0 {
        assert(s.queue.queue.skip(0) =~= s.queue.queue);
    } else {
        draining_hands_over_the_queue(s, now, (n - 1) as nat);
        let t = s.after_sent(now, (n - 1) as nat);
        assert(t.queue.pending =~= Seq::empty());
        let p = t.queue.promoted(t.next_seq);
        assert(p.queue =~= t.queue.queue);
        assert(p.pending =~= Seq::empty());
        let f = p.flushed(now);
        assert(f.queue =~= t.queue.queue);
        assert(f.pending =~= Seq::empty());
        assert(t.queue.queue[0] == s.queue.queue[n - 1]);
        assert(t.emitted(now).1 == Some(s.queue.queue[n - 1]));
        let front = s.sent_bytes(now, (n - 1) as nat);
        assert(s.sent_bytes(now, n) == front.push(emission_bytes(s.queue.queue[n - 1])));
        assert(s.after_sent(now, n).queue.queue =~= s.queue.queue.skip(n as int));
    }
}

/// A parity that went out is counted and a source is not; a datagram that was
/// refused is counted as neither.
pub proof fn answers_are_counted(s: EmitterView, e: EmissionView, outcome: SendOutcome)
    requires
        s.stats.parity_emitted < u64::MAX,
    ensures
        ({
            let t = s.settled(e, outcome);
            &&& t.stats == (EmitterStats {
                parity_emitted: (if outcome is Sent && e is Parity {
                    (s.stats.parity_emitted + 1) as u64
                } else {
                    s.stats.parity_emitted
                }),
                ..s.stats
            })
            &&& t.cache == s.cache && t.deadlines == s.deadlines && t.next_seq == s.next_seq
            &&& outcome is Sent ==> t.queue == s.queue
            &&& outcome is Rejected ==> t.queue.idle_since is None && t.queue.queue.len()
                == s.queue.queue.len() + 1
                && t.queue.queue[0] == e && t.queue.queue.skip(1) == s.queue.queue
                && t.queue.pending == s.queue.pending
        }),
{
    let t = s.settled(e, outcome);
    if outcome is Rejected {
        assert(t.queue.queue.skip(1) =~= s.queue.queue);
    }
}

// ---------------------------------------------------------------------------
// Repetition and age
// ---------------------------------------------------------------------------

/// An entry whose deadline has passed is sent again: all of its fragments, whole
/// and in order, stand behind what is queued.  It counts one attempt more, waits
/// from now on as long as that many attempts ask for, and stays cached as it is.
pub proof fn an_overdue_entry_is_sent_again(s: EmitterView, key: EmitKey, now: Instant, n: u64)
    requires
        s.cache.dom().contains(key.packed()),
        s.cache[key.packed()].attempts < u8::MAX,
        s.stats.rto_fired < u64::MAX,
        s.stats.retransmit_attempts_total < u64::MAX,
        now.nanos + rto::RTO_BACKOFF_MAX_NANOS <= u128::MAX,
        n != key.packed(),
    ensures
        ({
            let t = s.fired(key, now);
            let e = s.cache[key.packed()];
            let a = t.cache[key.packed()];
            let len = s.queue.queue.len() as int;
            &&& t.queue.queue.len() == len + e.fragments.len()
            &&& t.queue.queue.take(len) == s.queue.queue
            &&& forall|i: int|
                0 <= i < e.fragments.len() ==> #[trigger] t.queue.queue.skip(len)[i]
                    == EmissionView::Source(e.fragments[i])
            &&& t.queue.pending == s.queue.pending
            &&& e.fragments.len() > 0 ==> t.queue.idle_since is None
            &&& a.fragments == e.fragments && a.wire_seqs == e.wire_seqs && a.probe == e.probe
            &&& a.queued_at == e.queued_at && a.first_sent_at == e.first_sent_at
            &&& a.last_sent_at == now
            &&& a.attempts == e.attempts + 1
            &&& a.rto_deadline.nanos == now.nanos + s.source.nanos_after((e.attempts + 1) as u8)
            &&& t.cache.dom() == s.cache.dom()
            &&& s.cache.dom().contains(n) ==> t.cache[n] == s.cache[n]
            &&& t.deadlines.len() == s.deadlines.len() + 1
            &&& t.deadlines.contains(RtoEntry { deadline: a.rto_deadline, key })
            &&& t.stats.rto_fired == s.stats.rto_fired + 1
            &&& t.stats.retransmit_attempts_total == s.stats.retransmit_attempts_total + 1
            &&& t.stats == (EmitterStats {
                rto_fired: t.stats.rto_fired,
                retransmit_attempts_total: t.stats.retransmit_attempts_total,
                ..s.stats
            })
            &&& t.next_seq == s.next_seq && t.group == s.group
            &&& t.group_first == s.group_first && t.source == s.source
            &&& t.deadlines_off == s.deadlines_off
        }),
{
    let t = s.fired(key, now);
    let e = s.cache[key.packed()];
    let at = (e.attempts + 1) as u8;
    deadlines_wait(s.source, at);
    let deadline = Instant { nanos: (now.nanos + s.source.nanos_after(at)) as u128 };
    let i = rto::due_count(s.deadlines, deadline) as int;
    rto::due_count_bound(s.deadlines, deadline);
    assert(t.deadlines[i] == (RtoEntry { deadline, key }));
    assert(t.queue.queue.take(s.queue.queue.len() as int) =~= s.queue.queue);
    assert(t.cache.dom() =~= s.cache.dom());
}

/// How long an entry waits: two round trips or twice the slow acknowledgement,
/// doubled with every attempt.
pub proof fn an_entry_waits_by_its_source(rtt: Duration, p95: Duration, attempts: u8)
    ensures
        DeadlineSource::SmoothedRtt(rtt).nanos_after(attempts) == rto::backed_off(
            rto::smoothed_deadline(rtt),
            attempts,
        ),
        0 < rtt.nanos <= 25_000_000 ==> DeadlineSource::SmoothedRtt(rtt).nanos_after(0) == 2
            * rtt.nanos,
        75_000_000 <= p95.nanos <= 1_000_000_000 ==> DeadlineSource::AckLatency(
            Some(p95),
        ).nanos_after(0) == 2 * p95.nanos,
        DeadlineSource::AckLatency(None).nanos_after(0) == 1_000_000_000,
        DeadlineSource::AckLatency(Some(p95)).nanos_after(attempts) == rto::backed_off(
            rto::first_deadline(Some(p95)),
            attempts,
        ),
{
    rto::the_first_wait_is_twice_the_slow_ack(p95);
    rto::the_smoothed_wait_is_two_round_trips(rtt);
    rto::each_attempt_doubles_the_wait(rto::smoothed_deadline(rtt), 0);
    rto::each_attempt_doubles_the_wait(rto::first_deadline(Some(p95)), 0);
    rto::each_attempt_doubles_the_wait(rto::first_deadline(None), 0);
}

/// Nothing is repeated before its deadline, without a budget, or while
/// deadlines are off.
pub proof fn nothing_is_repeated_early(s: EmitterView, now: Instant, budget: nat)
    requires
        s.deadlines_off || budget == 0 || s.deadlines.len() == 0 || s.deadlines[0].deadline.nanos
            > now.nanos,
    ensures
        s.ticked(now, budget) == s,
{
}

/// The soonest deadline is taken first; an entry that is still cached uses one
/// of the budget, one that is not costs nothing.
pub proof fn the_soonest_deadline_is_taken(s: EmitterView, now: Instant, budget: nat)
    requires
        !s.deadlines_off,
        budget > 0,
        s.deadlines.len() > 0,
        s.deadlines[0].deadline.nanos <= now.nanos,
    ensures
        ({
            let key = s.deadlines[0].key;
            let rest = EmitterView { deadlines: s.deadlines.skip(1), ..s };
            &&& s.cache.dom().contains(key.packed()) ==> s.ticked(now, budget) == rest.fired(
                key,
                now,
            ).ticked(now, (budget - 1) as nat)
            &&& !s.cache.dom().contains(key.packed()) ==> s.ticked(now, budget) == rest.ticked(
                now,
                budget,
            )
        }),
{
}

/// What was used last is given up last: an entry that is put in, repeated or
/// reported missing comes first, and one that is acknowledged is listed no more.
pub proof fn the_last_used_comes_first(
    s: EmitterView,
    key: EmitKey,
    bytes: Seq<u8>,
    frag_idx: u8,
    now: Instant,
)
    ensures
        s.submitted(key, bytes, now).recent.len() > 0,
        s.submitted(key, bytes, now).recent[0] == key.packed(),
        !s.recent.contains(key.packed()) && s.recent.len() < 32768 ==> s.submitted(
            key,
            bytes,
            now,
        ).recent.skip(1) == s.recent,
        !s.recent.contains(key.packed()) && s.recent.len() == 32768 ==> s.submitted(
            key,
            bytes,
            now,
        ).recent.skip(1) == s.recent.drop_last(),
        s.recent.contains(key.packed()) ==> s.fired(key, now).recent.len() > 0 && s.fired(
            key,
            now,
        ).recent[0] == key.packed(),
        s.recent.contains(key.packed()) && s.cache.dom().contains(key.packed()) ==> s.nacked(
            key,
            frag_idx,
            now,
        ).recent.len() > 0 && s.nacked(key, frag_idx, now).recent[0] == key.packed(),
        !s.acked(seq![key]).recent.contains(key.packed()),
        !s.acked(seq![key]).cache.dom().contains(key.packed()),
{
    reveal_with_fuel(EmitterView::acked, 2);
    let n = key.packed();
    let t = s.submitted(key, bytes, now);
    if !s.recent.contains(n) && s.recent.len() < 32768 {
        assert(t.recent.skip(1) =~= s.recent);
    }
    if !s.recent.contains(n) && s.recent.len() == 32768 {
        assert(t.recent.skip(1) =~= s.recent.drop_last());
    }
    assert(seq![key].drop_last() =~= Seq::empty());
    assert(seq![key].last() == key);
    let rest = cache::without(s.recent, n);
    if rest.contains(n) {
        let i = choose|i: int| 0 <= i < rest.len() && rest[i] == n;
        seqs::filter_member(s.recent, cache::other_than(n), i);
    }
}

/// A new emitter holds nothing, has counted nothing and repeats by the default
/// round trip of 20 ms.
pub proof fn a_new_emitter_holds_nothing()
    ensures
        ({
            let f = EmitterView::fresh();
            &&& f.recent.len() == 0 && f.evictions == 0
            &&& f.group.len() == 0 && f.group_first is None
            &&& !f.deadlines_off
            &&& f.queue.idle_since is None
            &&& f.source matches DeadlineSource::SmoothedRtt(d) && d.nanos == 20_000_000
            &&& f.stats.source_emitted == 0 && f.stats.parity_emitted == 0
            &&& f.stats.ack_hit == 0 && f.stats.ack_miss == 0 && f.stats.nack_hit == 0
            &&& f.stats.nack_miss == 0 && f.stats.rto_fired == 0
            &&& f.stats.rto_max_retransmits_reached == 0
            &&& f.stats.retransmit_attempts_total == 0
        }),
{
}

/// What is queued comes out from the front before any waiting parity is looked
/// for in time; an empty queue with parity waiting starts to idle, and after
/// 5 ms of idling all of it comes out in order.
pub proof fn idle_parity_comes_out(q: QueueView, now: Instant, since: Instant)
    requires
        q.queue.len() == 0,
        q.pending.len() > 0,
    ensures
        q.idle_since is None ==> q.flushed(now) == q && q.taken(now).1 is None && q.taken(
            now,
        ).0.idle_since == Some(now),
        q.idle_since == Some(since) && now.nanos - since.nanos < 5_000_000 ==> q.flushed(now) == q
            && q.taken(now).1 is None && q.taken(now).0.idle_since == Some(since),
        q.idle_since == Some(since) && now.nanos - since.nanos >= 5_000_000 ==> {
            let f = q.flushed(now);
            &&& f.pending.len() == 0
            &&& f.queue.len() == q.pending.len()
            &&& forall|i: int|
                0 <= i < q.pending.len() ==> #[trigger] f.queue[i] == EmissionView::Parity(
                    q.pending[i].1,
                )
            &&& f.taken(now).1 == Some(EmissionView::Parity(q.pending[0].1))
            &&& f.taken(now).0.idle_since is None
        },
{
}

/// An emission that is waiting comes out from the front and ends the idling.
pub proof fn the_front_comes_out(q: QueueView, now: Instant)
    requires
        q.queue.len() > 0,
    ensures
        q.taken(now).1 == Some(q.queue[0]),
        q.taken(now).0.queue == q.queue.skip(1),
        q.taken(now).0.pending == q.pending,
        q.taken(now).0.idle_since is None,
{
}

/// Parity that waits for a number comes out once the next emission has at least
/// that number, in order, and the rest waits on.
pub proof fn parity_waits_for_its_number(q: QueueView, next: u32, n: int)
    requires
        0 <= n <= q.pending.len(),
        forall|i: int| 0 <= i < n ==> (#[trigger] q.pending[i]).0 <= next,
        n < q.pending.len() ==> q.pending[n].0 > next,
    ensures
        ({
            let p = q.promoted(next);
            let len = q.queue.len() as int;
            &&& p.pending == q.pending.skip(n)
            &&& p.queue.len() == len + n
            &&& p.queue.take(len) == q.queue
            &&& forall|i: int|
                0 <= i < n ==> #[trigger] p.queue.skip(len)[i] == EmissionView::Parity(
                    q.pending[i].1,
                )
            &&& p.idle_since == q.idle_since
        }),
{
    ready_is(q.pending, next, n);
    assert(q.promoted(next).queue.take(q.queue.len() as int) =~= q.queue);
}

proof fn ready_is(s: Seq<Waiting>, next: u32, n: int)
    requires
        0 <= n <= s.len(),
        forall|i: int| 0 <= i < n ==> (#[trigger] s[i]).0 <= next,
        n < s.len() ==> s[n].0 > next,
    ensures
        emission_queue::ready(s, next) == n,
    decreases n,
{
    if n > 0 {
        assert(s[0].0 <= next);
        let t = s.skip(1);
        assert forall|i: int| 0 <= i < n - 1 implies (#[trigger] t[i]).0 <= next by {
            assert(t[i] == s[i + 1]);
        }
        ready_is(t, next, n - 1);
    }
}

/// A datagram is told by all of its bytes but its time stamp: two that differ
/// only there have the same mark.
pub proof fn marks_ignore_the_time(a: Seq<u8>, b: Seq<u8>)
    requires
        a.len() == b.len(),
        forall|i: int| 0 <= i < a.len() && !(12 <= i < 16) ==> #[trigger] a[i] == b[i],
    ensures
        fnv(a) == fnv(b),
    decreases a.len(),
{
    if a.len() > 0 {
        let x = a.drop_last();
        let y = b.drop_last();
        assert forall|i: int| 0 <= i < x.len() && !(12 <= i < 16) implies #[trigger] x[i]
            == y[i] by {
            assert(a[i] == b[i]);
        }
        marks_ignore_the_time(x, y);
        if !(12 <= a.len() - 1 < 16) {
            assert(a[a.len() - 1] == b[a.len() - 1]);
        }
    }
}

/// The mark of a datagram: a product of each byte in turn, by the prime
/// 16777619 from 2166136261 on; the four bytes of the time stamp are passed
/// over.
pub proof fn marks_are_taken_byte_by_byte(b: Seq<u8>, x: u8)
    ensures
        fnv(Seq::empty()) == 2166136261,
        b.len() < 12 || b.len() >= 16 ==> fnv(b.push(x)) == ((fnv(b) ^ (x as u32)) * 16777619)
            % 0x1_0000_0000,
        12 <= b.len() < 16 ==> fnv(b.push(x)) == fnv(b),
{
    assert(b.push(x).drop_last() =~= b);
}

/// A batch is taken in order, each datagram with its own key.
pub proof fn a_batch_keeps_its_order(items: Seq<(EmitKey, Vec<u8>)>, i: int)
    requires
        0 <= i < items.len(),
    ensures
        batch_items(items).len() == items.len(),
        batch_items(items)[i].0 == items[i].0,
        batch_items(items)[i].1 == items[i].1@,
{
}

/// A drain that is refused keeps the refused datagram in front; one that is not
/// leaves nothing.
pub proof fn a_refused_datagram_stays_in_front(
    s: EmitterView,
    after: EmitterView,
    now: Instant,
    n: nat,
)
    requires
        s.queue.pending.len() == 0,
        n <= s.queue.queue.len(),
        s.drained(after, now, n),
    ensures
        after.queue.queue == s.queue.queue.skip(n as int),
        after.cache == s.cache,
        after.deadlines == s.deadlines,
{
    draining_hands_over_the_queue(s, now, n);
    let t = s.after_sent(now, n);
    assert(t.queue.pending =~= Seq::empty());
    let p = t.queue.promoted(t.next_seq);
    assert(p.queue =~= t.queue.queue);
    assert(p.pending =~= Seq::empty());
    let f = p.flushed(now);
    assert(f.queue =~= t.queue.queue);
    if t.queue.queue.len() > 0 {
        assert(t.emitted(now).1 == Some(t.queue.queue[0]));
        assert(after.queue.queue =~= t.queue.queue);
    } else {
        assert(after.queue.queue =~= t.queue.queue);
    }
}

/// Counters go up by one and stay at the largest number.
pub proof fn counters_never_fall(n: u64, a: u8)
    ensures
        n < u64::MAX ==> one_more(n) == n + 1,
        one_more(u64::MAX) == u64::MAX,
        a < u8::MAX ==> next_attempt(a) == a + 1,
        next_attempt(u8::MAX) == u8::MAX,
{
}

/// The order of use drops a tile's entries by the tile in their key.
pub proof fn a_cancelled_tile_is_told_by_its_key(key: EmitKey, x: u8, y: u8)
    ensures
        cache::not_of_tile(x, y)(key.packed()) <==> key.tile_x != x || key.tile_y != y,
{
    key_packing_round_trip(key, key.packed());
}

/// Byte strings are ordered like words: the first byte that differs decides, and
/// what is only longer comes after.
pub proof fn the_first_difference_decides(p: Seq<u8>, x: u8, y: u8, a: Seq<u8>, b: Seq<u8>)
    requires
        x < y,
    ensures
        emission_queue::lex_le(p + seq![x] + a, p + seq![y] + b),
        !emission_queue::lex_le(p + seq![y] + b, p + seq![x] + a),
        emission_queue::lex_le(p, p + a),
        a.len() > 0 ==> !emission_queue::lex_le(p + a, p),
    decreases p.len(),
{
    let s = p + seq![x] + a;
    let t = p + seq![y] + b;
    if p.len() > 0 {
        let q = p.skip(1);
        the_first_difference_decides(q, x, y, a, b);
        assert(s.skip(1) =~= q + seq![x] + a);
        assert(t.skip(1) =~= q + seq![y] + b);
        assert((p + a).skip(1) =~= q + a);
        assert(s[0] == p[0] && t[0] == p[0] && (p + a)[0] == p[0]);
    } else {
        assert(s[0] == x && t[0] == y);
    }
}

/// What waits for a smaller number stands before what waits for a larger one.
pub proof fn smaller_numbers_wait_in_front(a: Waiting, b: Waiting)
    requires
        a.0 < b.0,
    ensures
        emission_queue::waits_le(a, b),
        !emission_queue::waits_le(b, a),
{
}

} // verus!
