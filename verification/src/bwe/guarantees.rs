//! What the estimator is told and what it makes of the answers.
use crate::bwe;
use crate::bwe::googcc;
use crate::bwe::googcc::{
    AckArrival, DriverView, Exchange, PacerWindow, PacketFeed, ProbeConfig, UpdateView,
};
use crate::bwe::timeline;
use crate::bwe::window::RateWindow;
use crate::time::Instant;
use vstd::prelude::*;

verus! {

/// The estimate starts at the rate that was asked for, kept between 0.2 and
/// 200 Mbit/s; a rate beyond what the controller can count starts at the
/// bottom.
pub proof fn the_estimate_starts_within_bounds(bps: u64)
    ensures
        200_000 <= googcc::start_rate(bps) <= 200_000_000,
        200_000 <= bps <= 200_000_000 ==> googcc::start_rate(bps) == bps,
        bps < 200_000 ==> googcc::start_rate(bps) == 200_000,
        200_000_000 < bps <= i64::MAX ==> googcc::start_rate(bps) == 200_000_000,
{
}

/// A new driver reports the rate it was given and has told the controller the
/// bounds and that the network is up.
pub proof fn a_new_driver_reports_its_rate(bps: u64, now: Instant)
    ensures
        ({
            let v = DriverView::fresh(bps, now);
            &&& v.snapshot().bitrate_bps == bps
            &&& v.snapshot().samples_seen == 0 && v.snapshot().implausible_rtt_samples == 0
            &&& v.snapshot().pacer_rate_bps is None
            &&& v.pending.len() == 0 && v.path_rtt is None && v.base == now
            &&& v.exchanges.len() == 2
            &&& v.exchanges[0] matches Exchange::Created { min_bps, max_bps, start_bps }
                && min_bps <= start_bps <= max_bps && min_bps == 200_000 && max_bps == 200_000_000
            &&& v.exchanges[1] is NetworkUp
        }),
{
}

/// What a snapshot reports is what the driver holds.
pub proof fn a_snapshot_reports_what_is_held(v: DriverView)
    ensures
        v.snapshot().bitrate_bps == v.estimate_bps,
        v.snapshot().samples_seen == v.samples_seen,
        v.snapshot().implausible_rtt_samples == v.implausible_rtt_samples,
        v.snapshot().pacer_rate_bps == v.pacer_rate_bps,
{
}

/// A record is fed with the times and the size it came with, and with the
/// probe it belonged to.
pub proof fn a_record_is_fed_as_it_came(records: Seq<AckArrival>, i: int)
    requires
        0 <= i < records.len(),
        records[i].server_emit_us <= i64::MAX,
        records[i].client_arrival_us <= i64::MAX,
    ensures
        ({
            let p = googcc::feeds_of(records)[i];
            let r = records[i];
            &&& googcc::feeds_of(records).len() == records.len()
            &&& p.send_us == r.server_emit_us
            &&& p.receive_us == r.client_arrival_us
            &&& p.size_bytes == r.size_bytes
            &&& r.probe matches Some(tag) ==> {
                &&& p.pacing.probe_cluster_id == tag.id
                &&& p.pacing.probe_cluster_min_probes == tag.min_probes
                &&& p.pacing.probe_cluster_min_bytes == tag.min_bytes
                &&& p.pacing.probe_cluster_bytes_sent == tag.bytes_sent_before
            }
            &&& r.probe is None ==> {
                &&& p.pacing.probe_cluster_id == -1
                &&& p.pacing.probe_cluster_min_probes == -1
                &&& p.pacing.probe_cluster_min_bytes == -1
                &&& p.pacing.probe_cluster_bytes_sent == 0
            }
        }),
{
}

/// A batch counts each of its records, and its last record's one-way delay is
/// flagged when it exceeds ten path round trips and a second.
pub proof fn a_batch_is_counted(v: DriverView, records: Seq<AckArrival>)
    requires
        records.len() > 0,
        v.samples_seen + records.len() <= u64::MAX,
        v.implausible_rtt_samples < u64::MAX,
    ensures
        ({
            let c = v.counted(records);
            let last = records[records.len() - 1];
            let delay_ns = 1_000 * (last.client_arrival_us - last.server_emit_us);
            let flagged = v.path_rtt is Some && delay_ns > v.path_rtt->0.nanos * 10
                + 1_000_000_000;
            &&& c.samples_seen == v.samples_seen + records.len()
            &&& flagged ==> c.implausible_rtt_samples == v.implausible_rtt_samples + 1
            &&& !flagged ==> c.implausible_rtt_samples == v.implausible_rtt_samples
            &&& c.estimate_bps == v.estimate_bps && c.pacer_rate_bps == v.pacer_rate_bps
            &&& c.pending == v.pending && c.exchanges == v.exchanges
            &&& c.base == v.base && c.path_rtt == v.path_rtt
        }),
{
}

/// The pacing rate of a window is its bits over its time, rounded down.
pub proof fn the_pacing_rate_is_bits_over_time(w: PacerWindow)
    ensures
        googcc::window_rate(w) matches Some(bps) ==> {
            &&& w.data_bytes > 0 && w.time_us > 0 && bps > 0
            &&& bps * w.time_us <= w.data_bytes * 8_000_000 < (bps + 1) * w.time_us
        },
        googcc::window_rate(w) is None && w.data_bytes > 0 && w.time_us > 0 ==> w.data_bytes
            * 8_000_000 < w.time_us || w.data_bytes * 8_000_000 >= (i64::MAX + 1) * w.time_us,
{
    if w.data_bytes > 0 && w.time_us > 0 {
        let n = w.data_bytes * 8_000_000;
        let t = w.time_us as int;
        let q = n / t;
        assert(q * t <= n < (q + 1) * t) by (nonlinear_arith)
            requires
                n > 0,
                t > 0,
                q == n / t,
        ;
        assert(q >= 0) by (nonlinear_arith)
            requires
                n > 0,
                t > 0,
                q == n / t,
        ;
        if q == 0 {
            assert(n < t) by (nonlinear_arith)
                requires
                    n < (q + 1) * t,
                    q == 0,
            ;
        } else if q > i64::MAX {
            assert(n >= (i64::MAX + 1) * t) by (nonlinear_arith)
                requires
                    q * t <= n,
                    q >= i64::MAX + 1,
                    t > 0,
            ;
        }
    }
}

/// A probe is asked for at its rate, for its time and with its count; the
/// bytes it needs are rate times time, rounded down.
pub proof fn a_probe_is_asked_for_as_configured(c: ProbeConfig)
    requires
        c.target_bps >= 0,
        c.duration_us >= 0,
        c.probe_count >= 0,
    ensures
        ({
            let r = googcc::request_for(c);
            &&& r.id == c.id
            &&& r.target_rate_bps == c.target_bps
            &&& r.duration.nanos == c.duration_us * 1_000
            &&& r.min_probes == c.probe_count
            &&& r.min_bytes < i64::MAX ==> r.min_bytes * 8_000_000 <= c.target_bps * c.duration_us
                < (r.min_bytes + 1) * 8_000_000
            &&& r.min_bytes == i64::MAX ==> c.target_bps * c.duration_us >= i64::MAX * 8_000_000
        }),
{
    let n = c.target_bps * c.duration_us;
    assert(n >= 0) by (nonlinear_arith)
        requires
            c.target_bps >= 0,
            c.duration_us >= 0,
            n == c.target_bps * c.duration_us,
    ;
}

/// Negative settings of a probe count as none.
pub proof fn negative_settings_count_as_none(c: ProbeConfig)
    ensures
        c.target_bps < 0 ==> googcc::request_for(c).target_rate_bps == 0,
        c.duration_us < 0 ==> googcc::request_for(c).duration.nanos == 0,
        c.probe_count < 0 ==> googcc::request_for(c).min_probes == 0,
        c.target_bps < 0 || c.duration_us < 0 ==> googcc::request_for(c).min_bytes == 0,
{
    let a = googcc::at_least_zero(c.target_bps as int);
    let b = googcc::at_least_zero(c.duration_us as int);
    if a == 0 || b == 0 {
        assert(a * b == 0) by (nonlinear_arith)
            requires
                a == 0 || b == 0,
        ;
    }
}

/// What the driver takes from an answer: a positive target rate, a pacing rate
/// that can be computed, and the newest four probe requests.
pub proof fn an_answer_is_taken_over(v: DriverView, u: UpdateView, i: int)
    requires
        v.pending.len() <= 4,
    ensures
        ({
            let a = v.absorbed(u);
            let all = v.pending.len() + u.probes.len();
            &&& (u.target_bps matches Some(bps) && bps > 0) ==> a.estimate_bps == u.target_bps->0
            &&& (u.target_bps is None || u.target_bps->0 <= 0) ==> a.estimate_bps == v.estimate_bps
            &&& (u.pacer is Some && googcc::window_rate(u.pacer->0) is Some) ==> a.pacer_rate_bps
                == googcc::window_rate(u.pacer->0)
            &&& (u.pacer is None || googcc::window_rate(u.pacer->0) is None) ==> a.pacer_rate_bps
                == v.pacer_rate_bps
            &&& all <= 4 ==> a.pending.len() == all
            &&& all > 4 ==> a.pending.len() == 4
            &&& 0 <= i < a.pending.len() && i < u.probes.len() ==> a.pending[a.pending.len() - 1 - i]
                == googcc::request_for(u.probes[u.probes.len() - 1 - i])
            &&& u.probes.len() <= i < a.pending.len() ==> a.pending[a.pending.len() - 1 - i]
                == v.pending[v.pending.len() - 1 - (i - u.probes.len())]
            &&& a.samples_seen == v.samples_seen
            &&& a.implausible_rtt_samples == v.implausible_rtt_samples
            &&& a.exchanges == v.exchanges && a.base == v.base && a.path_rtt == v.path_rtt
        }),
{
}

/// The feedback time is the time since the start in milliseconds, unless a
/// packet claims to have been sent later: then it is the latest such time.
pub proof fn feedback_is_told_at_its_time(base: Instant, records: Seq<AckArrival>, now: Instant)
    requires
        base.nanos <= now.nanos,
    ensures
        ({
            let at = googcc::feedback_ms(base, records, now);
            let since = (now.nanos - base.nanos) / 1_000_000;
            &&& at >= since
            &&& (forall|i: int|
                0 <= i < records.len() ==> (#[trigger] records[i]).server_emit_us / 1_000 <= since)
                ==> at == since
            &&& at > since ==> exists|i: int|
                0 <= i < records.len() && (#[trigger] records[i]).server_emit_us / 1_000 == at
        }),
{
    if googcc::latest_send_ms(records) > 0 {
        latest_is_one(records);
    }
}

proof fn latest_is_one(records: Seq<AckArrival>)
    requires
        googcc::latest_send_ms(records) > 0,
    ensures
        exists|i: int|
            0 <= i < records.len() && (#[trigger] records[i]).server_emit_us / 1_000
                == googcc::latest_send_ms(records),
    decreases records.len(),
{
    if records.len() > 0 {
        let rest = records.drop_last();
        let last = records[records.len() - 1];
        if last.server_emit_us / 1_000 == googcc::latest_send_ms(records) {
        } else {
            latest_is_one(rest);
            let i = choose|i: int|
                0 <= i < rest.len() && (#[trigger] rest[i]).server_emit_us / 1_000
                    == googcc::latest_send_ms(rest);
            assert(records[i] == rest[i]);
        }
    }
}

/// An update is told in one piece: the sends of its records, their feedback,
/// and one interval at the same time, and both answers are taken over.
pub proof fn an_update_is_told_in_order(
    v: DriverView,
    records: Seq<AckArrival>,
    now: Instant,
    in_flight: usize,
    first: UpdateView,
    second: UpdateView,
)
    requires
        in_flight <= i64::MAX,
        googcc::feedback_ms(v.base, records, now) <= i64::MAX,
    ensures
        ({
            let a = v.updated(records, now, in_flight, first, second);
            let n = v.exchanges.len();
            let k = n + records.len();
            let at = googcc::feedback_ms(v.base, records, now);
            &&& a.exchanges.len() == k + 2
            &&& a.exchanges.take(n as int) == v.exchanges
            &&& forall|i: int|
                0 <= i < records.len() ==> {
                    let p = #[trigger] googcc::feeds_of(records)[i];
                    a.exchanges.skip(n as int)[i] matches Exchange::Sent {
                        send_us,
                        size_bytes,
                        pacing,
                    } && send_us == p.send_us && size_bytes == p.size_bytes && pacing == p.pacing
                }
            &&& a.exchanges[k as int] matches Exchange::Feedback {
                packets,
                at_ms,
                in_flight_bytes,
                answer,
            } && packets == googcc::feeds_of(records) && at_ms == at && in_flight_bytes == in_flight
                && answer == first
            &&& a.exchanges[(k + 1) as int] matches Exchange::Interval { at_ms, answer } && at_ms == at
                && answer == second
            &&& a.estimate_bps == v.counted(records).absorbed(first).absorbed(second).estimate_bps
            &&& a.samples_seen == v.counted(records).samples_seen
            &&& a.implausible_rtt_samples == v.counted(records).implausible_rtt_samples
            &&& a.pending == v.counted(records).absorbed(first).absorbed(second).pending
        }),
{
    let a = v.updated(records, now, in_flight, first, second);
    assert(a.exchanges.take(v.exchanges.len() as int) =~= v.exchanges);
}

/// An arrival is placed on the timeline with the number, send time and size
/// it came with; its milliseconds agree with the sixteen bits that were sent.
pub proof fn an_arrival_keeps_what_it_came_with(
    position: Option<i64>,
    records: Seq<bwe::AckArrival>,
    i: int,
)
    requires
        0 <= i < records.len(),
    ensures
        ({
            let p = bwe::all_placed(position, records)[i];
            let r = records[i];
            let before = bwe::position_after(position, records.take(i));
            let t = timeline::next_position(before, r.client_arrival_ms_lo16 as int, 0x1_0000);
            &&& bwe::all_placed(position, records).len() == records.len()
            &&& p.wire_seq == r.wire_seq
            &&& p.server_emit_us == r.server_emit_us
            &&& p.size_bytes == r.size_bytes
            &&& p.probe is None
            &&& t % 0x1_0000 == r.client_arrival_ms_lo16
            &&& before is Some ==> -0x8000 <= t - before->0 <= 0x8000
            &&& 0 <= t < 1_000_000_000 ==> p.client_arrival_us == t * 1_000
            &&& t < 0 ==> p.client_arrival_us == 0
        }),
{
    let before = bwe::position_after(position, records.take(i));
    let lo = records[i].client_arrival_ms_lo16 as int;
    if before is Some {
        timeline::nearest_is_near(before->0 as int, lo, 0x1_0000);
    }
}

/// A window counts what arrives and is over after 200 ms.
pub proof fn a_window_counts_arrivals(w: RateWindow, n: usize, now: Instant)
    requires
        w.count + n <= u32::MAX,
        w.samples_seen + n <= u64::MAX,
        w.start.nanos <= now.nanos,
    ensures
        w.counted(n).count == w.count + n,
        w.counted(n).samples_seen == w.samples_seen + n,
        w.counted(n).start == w.start,
        w.is_over(now) <==> now.nanos - w.start.nanos >= 200_000_000,
{
}

// ---------------------------------------------------------------------------
// What may be told
// ---------------------------------------------------------------------------

/// Sizes add up, over all packets and over those of one probe.
pub proof fn packet_sizes_add_up(
    a: Seq<PacketFeed>,
    b: Seq<PacketFeed>,
    p: PacketFeed,
    id: i32,
)
    ensures
        googcc::size_of(a + b) == googcc::size_of(a) + googcc::size_of(b),
        googcc::size_of(seq![p]) == p.size_bytes,
        googcc::cluster_size(a + b, id) == googcc::cluster_size(a, id) + googcc::cluster_size(b, id),
        p.pacing.probe_cluster_id == id && id != -1 ==> googcc::cluster_size(seq![p], id)
            == p.size_bytes,
        p.pacing.probe_cluster_id != id || id == -1 ==> googcc::cluster_size(seq![p], id) == 0,
    decreases b.len(),
{
    reveal_with_fuel(googcc::size_of, 2);
    reveal_with_fuel(googcc::cluster_size, 2);
    assert(seq![p].drop_last() =~= Seq::empty());
    assert(seq![p].last() == p);
    if b.len() == 0 {
        assert(a + b =~= a);
    } else {
        assert((a + b).drop_last() =~= a + b.drop_last());
        assert((a + b).last() == b.last());
        packet_sizes_add_up(a, b.drop_last(), p, id);
    }
}

/// The earliest and the latest send are sends of the packets, and all others
/// lie between.
pub proof fn sends_lie_between(packets: Seq<PacketFeed>, i: int)
    requires
        0 <= i < packets.len(),
    ensures
        googcc::earliest_us(packets) <= packets[i].send_us <= googcc::latest_us(packets),
        exists|k: int|
            0 <= k < packets.len() && (#[trigger] packets[k]).send_us == googcc::earliest_us(
                packets,
            ),
        exists|k: int|
            0 <= k < packets.len() && (#[trigger] packets[k]).send_us == googcc::latest_us(packets),
    decreases packets.len(),
{
    let n = packets.len() - 1;
    if packets.len() == 1 {
        assert(packets[0].send_us == packets.last().send_us);
    } else {
        let front = packets.drop_last();
        let j = if i < n {
            i
        } else {
            0
        };
        sends_lie_between(front, j);
        let a = choose|k: int|
            0 <= k < front.len() && (#[trigger] front[k]).send_us == googcc::earliest_us(front);
        let b = choose|k: int|
            0 <= k < front.len() && (#[trigger] front[k]).send_us == googcc::latest_us(front);
        assert(packets[a] == front[a]);
        assert(packets[b] == front[b]);
        assert(packets[n] == packets.last());
        if i < n {
            assert(front[i] == packets[i]);
        } else {
            let c = front[0];
        }
    }
}

/// What is told of a packet lies within what the controller can count.
pub proof fn packets_lie_within_bounds(p: PacketFeed)
    ensures
        googcc::can_feed(p) <==> {
            &&& 0 <= p.send_us < 4_503_599_627_370_496
            &&& 0 <= p.receive_us < 4_503_599_627_370_496
            &&& 0 <= p.size_bytes < 46_000_000
            &&& p.pacing.probe_cluster_id != -1 ==> p.size_bytes > 0
                && p.pacing.probe_cluster_min_probes > 0
                && 0 < p.pacing.probe_cluster_min_bytes < i64::MAX
        },
{
}

/// Feedback is told in the order of time, of packets that are not too old, and
/// in amounts that the controller can count.
pub proof fn feedback_lies_within_bounds(
    log: Seq<Exchange>,
    packets: Seq<PacketFeed>,
    at_ms: int,
    in_flight: int,
    i: int,
)
    requires
        googcc::may_tell(log, packets, at_ms, in_flight),
        0 <= i < packets.len(),
    ensures
        googcc::last_told_ms(log) <= at_ms < 4_503_599_627_370,
        0 <= in_flight < i64::MAX,
        packets[i].size_bytes < 46_000_000,
        at_ms * 1_000 - packets[i].send_us <= 46_000_000_000,
        !googcc::was_told(log) ==> at_ms * 1_000 - packets[i].send_us <= 9_200_000_000,
        googcc::unobserved(log).bytes + googcc::size_of(packets) <= 1_152_921_504_606,
        packets[i].pacing.probe_cluster_id != -1 ==> googcc::cluster_bytes(
            log,
            packets[i].pacing.probe_cluster_id,
        ) + googcc::cluster_size(packets, packets[i].pacing.probe_cluster_id) <= 34_586_953,
        !googcc::was_told(log) && packets.len() >= 10 ==> at_ms <= 6_900_000,
{
    assert(googcc::can_feed(packets[i]));
    if packets[i].pacing.probe_cluster_id != -1 {
        assert(googcc::is_probe(packets[i]));
    }
}

/// What a log tells of the past: only feedback counts as told, its bytes count
/// until a quarter of a second of sends has been observed, and the bytes of a
/// probe count for good.
pub proof fn feedback_is_what_counts(
    log: Seq<Exchange>,
    packets: Seq<PacketFeed>,
    at_ms: i64,
    in_flight_bytes: i64,
    answer: UpdateView,
    id: i32,
    since: i64,
)
    requires
        packets.len() > 0,
        googcc::unobserved(log).since_us == Some(since),
    ensures
        ({
            let told = log.push(
                Exchange::Feedback { packets, at_ms, in_flight_bytes, answer },
            );
            let quiet = log.push(Exchange::NetworkUp);
            let latest = googcc::latest_us(packets);
            &&& googcc::was_told(told) && googcc::last_told_ms(told) == at_ms
            &&& googcc::was_told(quiet) == googcc::was_told(log)
            &&& googcc::last_told_ms(quiet) == googcc::last_told_ms(log)
            &&& googcc::cluster_bytes(told, id) == googcc::cluster_bytes(log, id)
                + googcc::cluster_size(packets, id)
            &&& googcc::cluster_bytes(quiet, id) == googcc::cluster_bytes(log, id)
            &&& googcc::unobserved(quiet) == googcc::unobserved(log)
            &&& latest - since < 250_000 ==> googcc::unobserved(told).bytes == googcc::unobserved(
                log,
            ).bytes + googcc::size_of(packets) && googcc::unobserved(told).since_us == Some(since)
            &&& latest - since >= 250_000 ==> googcc::unobserved(told).bytes == 0
                && googcc::unobserved(told).since_us == Some(latest)
        }),
{
    let told = log.push(Exchange::Feedback { packets, at_ms, in_flight_bytes, answer });
    let quiet = log.push(Exchange::NetworkUp);
    assert(told.drop_last() =~= log);
    assert(quiet.drop_last() =~= log);
}

/// Counts stay at the largest number, and time before the start counts as none.
pub proof fn counts_never_fall(
    v: DriverView,
    records: Seq<AckArrival>,
    w: RateWindow,
    n: usize,
    now: Instant,
)
    requires
        records.len() > 0,
    ensures
        v.samples_seen + records.len() > u64::MAX ==> v.counted(records).samples_seen == u64::MAX,
        v.counted(records).implausible_rtt_samples >= v.implausible_rtt_samples,
        n < 0x1_0000_0000 && w.count + n > u32::MAX ==> w.counted(n).count == u32::MAX,
        w.samples_seen + n > u64::MAX ==> w.counted(n).samples_seen == u64::MAX,
        now.nanos < w.start.nanos ==> !w.is_over(now),
        googcc::feedback_ms(w.start, Seq::empty(), now) == (if now.nanos > w.start.nanos {
            ((now.nanos - w.start.nanos) / 1_000_000) as int
        } else {
            0
        }),
{
}

/// The first feedback is told when it is short, or when it is a burst, drains a
/// queue or is short enough and comes soon, with a round trip below three
/// seconds.
pub proof fn the_first_feedback_is_bounded(packets: Seq<PacketFeed>, at_ms: int)
    ensures
        packets.len() < 10 ==> googcc::can_begin(packets, at_ms),
        packets.len() >= 10 && googcc::can_begin(packets, at_ms) ==> {
            &&& at_ms <= 6_900_000
            &&& packets.len() <= 22 || googcc::is_burst(packets) || googcc::is_draining(packets)
            &&& exists|i: int, j: int|
                0 <= i < packets.len() && 0 <= j < packets.len() && at_ms * 1_000 - (
                #[trigger] packets[i]).send_us - ((#[trigger] packets[j]).receive_us
                    - packets[i].receive_us) <= 2_999_000
        },
        googcc::is_burst(packets) <==> forall|i: int, j: int|
            0 <= i < packets.len() && 0 <= j < packets.len() ==> (#[trigger] packets[i]).send_us - (
            #[trigger] packets[j]).send_us <= 110_000 && packets[i].receive_us
                - packets[j].receive_us <= 2_999_999,
        googcc::is_draining(packets) <==> forall|i: int, j: int|
            0 <= i < j < packets.len() ==> (#[trigger] packets[i]).receive_us <= (
            #[trigger] packets[j]).receive_us && packets[j].receive_us - packets[j].send_us
                <= packets[i].receive_us - packets[i].send_us,
{
    if packets.len() >= 10 && googcc::can_begin(packets, at_ms) {
        let (i, j) = choose|i: int, j: int|
            0 <= i < packets.len() && 0 <= j < packets.len() && #[trigger] googcc::round_trip(
                packets[i],
                packets[j],
                at_ms,
            ) <= 2_999_000;
        let a = packets[i];
        let b = packets[j];
        assert(at_ms * 1_000 - a.send_us - (b.receive_us - a.receive_us) <= 2_999_000);
    }
}

/// Arrivals are placed one after the other, each next to the one before.
pub proof fn arrivals_are_placed_in_turn(
    position: Option<i64>,
    a: Seq<bwe::AckArrival>,
    b: Seq<bwe::AckArrival>,
    r: bwe::AckArrival,
)
    ensures
        bwe::position_after(position, a + b) == bwe::position_after(
            bwe::position_after(position, a),
            b,
        ),
        bwe::position_after(position, Seq::empty()) == position,
        position is None ==> bwe::position_after(position, seq![r]) == Some(
            r.client_arrival_ms_lo16 as i64,
        ),
    decreases b.len(),
{
    reveal_with_fuel(bwe::position_after, 2);
    assert(seq![r].drop_last() =~= Seq::empty());
    assert(seq![r].last() == r);
    if b.len() == 0 {
        assert(a + b =~= a);
    } else {
        assert((a + b).drop_last() =~= a + b.drop_last());
        assert((a + b).last() == b.last());
        arrivals_are_placed_in_turn(position, a, b.drop_last(), r);
    }
}

} // verus!
