//! Feeds a GoogCC congestion controller with acknowledged packets and keeps
//! what it answers.
//!
//! The controller works from the sender's own send times and the receiver's
//! arrival times. The two clocks have nothing in common: a constant offset
//! between them cancels, because only differences of arrivals and differences
//! of sends are compared.
use crate::bwe::BweSnapshot;
use crate::reliable_emitter::cache::ProbeTag;
use crate::time::{Duration, Instant};
use goog_cc::network_control::{NetworkControllerConfig, NetworkControllerInterface};
use goog_cc::transport::{
    NetworkAvailability, NetworkControlUpdate, PacedPacketInfo, PacerConfig, PacketResult,
    ProbeClusterConfig, ProcessInterval, SentPacket, TargetRateConstraints,
    TransportPacketsFeedback,
};
use goog_cc::units::{DataRate, DataSize, Timestamp};
use goog_cc::{GoogCcConfig, GoogCcNetworkController};
use std::collections::{HashMap, VecDeque};
use vstd::prelude::*;

verus! {

broadcast use {
    vstd::slice::group_slice_axioms,
    vstd::std_specs::hash::group_hash_axioms,
    vstd::std_specs::vecdeque::group_vec_dequeue_axioms,
};

/// Lowest rate that the controller may propose.
pub const MIN_BPS: i64 = 200_000;

/// Highest rate that the controller may propose.
pub const MAX_BPS: i64 = 200_000_000;

/// Most probe requests held at once.
pub const MAX_PENDING_PROBE_REQUESTS: usize = 4;

/// The cluster number of a packet that is no probe.
pub const NOT_A_PROBE: i32 = -1;

/// What stands for a threshold where there is no cluster.
pub const NO_THRESHOLD: i64 = -1;

/// Times handed to the controller stay below this, in microseconds.  Its
/// `IntervalBudget` multiplies the time between two sends by a rate, and would
/// overflow.
pub const FEED_LIMIT: u64 = 0x10_0000_0000_0000;

/// Packets told to the controller are smaller than this.  Its
/// `RobustThroughputEstimator` divides the bytes of up to 500 of them by as
/// little as a millisecond, and its `AimdRateControl` multiplies half as much
/// again by the microseconds between two frames, and would overflow.  No
/// datagram is nearly as large.
pub const PACKET_LIMIT: i64 = 46_000_000;

/// Most bytes told to the controller for one probe cluster.  Its
/// `ProbeBitrateEstimator` divides them by as little as a microsecond, and its
/// `AimdRateControl` multiplies the rate that comes out by the microseconds
/// between two frames, and would overflow.
pub const CLUSTER_LIMIT: u64 = 34_586_953;

/// Most bytes told to a controller between two looks at losses.  Its
/// `LossBasedBweV2` divides them by a time, and `DataSize::microbits` asserts
/// that they can be told in millionths of a bit.
pub const OBSERVATION_LIMIT: u64 = 1_152_921_504_606;

/// The controller looks at losses when the sends that it was told of have moved
/// on by so much.
pub const OBSERVATION_US: i64 = 250_000;

/// A packet of the first batch is told to the controller no later than this
/// after it was sent.  The controller multiplies the delay by a rate of up to a
/// gigabit per second for its congestion window, and would overflow.
pub const FIRST_AGE_LIMIT_US: i64 = 9_200_000_000;

/// The same for a packet of a later batch: by then the rate is no more than
/// [`MAX_BPS`].
pub const AGE_LIMIT_US: i64 = 46_000_000_000;

/// From so many packets on the controller measures a rate.
pub const RATE_PACKETS: usize = 10;

/// The first batch with a rate in it comes no later than this.  The controller
/// sets its limits behind that batch as of the time zero, and its
/// `LinkCapacityTracker` raises e to the time between the two in tens of
/// seconds: with more the capacity is no number, and `from_value_float` asserts
/// that it is one.
pub const FIRST_FEEDBACK_LIMIT_MS: i64 = 6_900_000;

/// The shortest round trip that the first batch with a rate in it shows is no
/// longer than this.  Behind one above three seconds the controller backs off
/// before the capacity that it drew from the time zero is put right: it is
/// below zero, and `from_value_float` asserts that it is not.
pub const FIRST_DELAY_LIMIT_US: i64 = 2_999_000;

/// Up to so many packets show no overuse, nor do more that were sent within
/// [`BURST_SEND_LIMIT_US`] and arrived within [`BURST_ARRIVAL_LIMIT_US`]: it
/// takes the controller's `TrendlineEstimator` twenty-three groups of packets
/// sent more than five milliseconds apart.  With an overuse in the first batch
/// with a rate in it the controller's capacity is zero but for rounding, and
/// `from_value_float` asserts that it is not below.
pub const BURST_PACKETS: usize = 22;

/// See [`BURST_PACKETS`].
pub const BURST_SEND_LIMIT_US: i64 = 110_000;

/// See [`BURST_PACKETS`].  After a longer gap between arrivals the groups are
/// counted from new.
pub const BURST_ARRIVAL_LIMIT_US: i64 = 2_999_999;

/// Bits in a byte, times microseconds in a second.
pub const MICROBITS_PER_BYTE: i64 = 8_000_000;

#[verifier::external_type_specification]
#[verifier::external_body]
pub struct ExGoogCcNetworkController(GoogCcNetworkController);

#[verifier::external_type_specification]
#[verifier::external_body]
pub struct ExNetworkControlUpdate(NetworkControlUpdate);

/// One acknowledged packet.
#[derive(Debug, Clone, Copy, PartialEq, Eq, Structural)]
pub struct AckArrival {
    pub wire_seq: u32,
    /// When it was sent, in microseconds of the sender's clock.
    pub server_emit_us: u64,
    /// When it arrived, in microseconds of the receiver's clock.
    pub client_arrival_us: u64,
    pub size_bytes: u32,
    /// The probe cluster that it was sent for.
    pub probe: Option<ProbeTag>,
}

/// A burst that the controller asks for, to find out whether there is room
/// above the present estimate.
#[derive(Debug, Clone, Copy, PartialEq, Eq, Structural)]
pub struct ProbeRequest {
    pub id: i32,
    pub target_rate_bps: u64,
    pub duration: Duration,
    pub min_probes: i64,
    pub min_bytes: i64,
}

/// What the controller is told of the probe cluster of a packet.
#[derive(Debug, Clone, Copy, PartialEq, Eq, Structural)]
pub struct PacingInfo {
    pub probe_cluster_id: i32,
    pub probe_cluster_min_probes: i64,
    pub probe_cluster_min_bytes: i64,
    pub probe_cluster_bytes_sent: i64,
}

/// What the controller is told of one packet.
#[derive(Debug, Clone, Copy, PartialEq, Eq, Structural)]
pub struct PacketFeed {
    pub send_us: i64,
    pub receive_us: i64,
    pub size_bytes: i64,
    pub pacing: PacingInfo,
}

/// The pacer may send `data_bytes` in `time_us`; zero where the controller
/// set no bound.
#[derive(Debug, Clone, Copy, PartialEq, Eq, Structural)]
pub struct PacerWindow {
    pub data_bytes: i64,
    pub time_us: i64,
}

/// A probe cluster as the controller asks for it.
#[derive(Debug, Clone, Copy, PartialEq, Eq, Structural)]
pub struct ProbeConfig {
    pub id: i32,
    pub target_bps: i64,
    pub duration_us: i64,
    pub probe_count: i32,
}

/// What the controller answers.
#[derive(Debug, Clone, PartialEq, Eq)]
pub struct ControlUpdate {
    pub target_bps: Option<i64>,
    pub pacer: Option<PacerWindow>,
    pub probes: Vec<ProbeConfig>,
}

/// What a [`ControlUpdate`] holds.
#[verifier::ext_equal]
pub struct UpdateView {
    pub target_bps: Option<i64>,
    pub pacer: Option<PacerWindow>,
    pub probes: Seq<ProbeConfig>,
}

impl View for ControlUpdate {
    type V = UpdateView;

    open spec fn view(&self) -> UpdateView {
        UpdateView { target_bps: self.target_bps, pacer: self.pacer, probes: self.probes@ }
    }
}

/// One call of the controller: what it was told, and what it answered where
/// its answer is used.
#[verifier::ext_equal]
pub enum Exchange {
    Created { min_bps: i64, max_bps: i64, start_bps: i64 },
    NetworkUp,
    Sent { send_us: i64, size_bytes: i64, pacing: PacingInfo },
    Feedback {
        packets: Seq<PacketFeed>,
        at_ms: i64,
        in_flight_bytes: i64,
        answer: UpdateView,
    },
    Interval { at_ms: i64, answer: UpdateView },
}

/// The calls of a controller, oldest first.
pub uninterp spec fn exchanges(ctl: GoogCcNetworkController) -> Seq<Exchange>;

/// What an answer of the controller holds, in plain numbers.
pub uninterp spec fn answer_of(update: NetworkControlUpdate) -> UpdateView;

/// The rate that the controller starts from.
pub open spec fn start_rate(initial_bps: u64) -> i64 {
    if initial_bps < MIN_BPS || initial_bps > i64::MAX {
        MIN_BPS
    } else if initial_bps > MAX_BPS {
        MAX_BPS
    } else {
        initial_bps as i64
    }
}

/// What a probe tag says; a packet without one is no probe.
pub open spec fn pacing_of(probe: Option<ProbeTag>) -> PacingInfo {
    match probe {
        Some(p) => PacingInfo {
            probe_cluster_id: p.id,
            probe_cluster_min_probes: p.min_probes,
            probe_cluster_min_bytes: p.min_bytes,
            probe_cluster_bytes_sent: p.bytes_sent_before,
        },
        None => PacingInfo {
            probe_cluster_id: NOT_A_PROBE,
            probe_cluster_min_probes: NO_THRESHOLD,
            probe_cluster_min_bytes: NO_THRESHOLD,
            probe_cluster_bytes_sent: 0,
        },
    }
}

/// What the controller is told of `r`.
pub open spec fn feed_of(r: AckArrival) -> PacketFeed {
    PacketFeed {
        send_us: r.server_emit_us as i64,
        receive_us: r.client_arrival_us as i64,
        size_bytes: r.size_bytes as i64,
        pacing: pacing_of(r.probe),
    }
}

/// What the controller is told of a batch.
pub open spec fn feeds_of(records: Seq<AckArrival>) -> Seq<PacketFeed> {
    records.map_values(|r: AckArrival| feed_of(r))
}

/// That `p` was sent, as the controller is told it.
pub open spec fn sent(p: PacketFeed) -> Exchange {
    Exchange::Sent { send_us: p.send_us, size_bytes: p.size_bytes, pacing: p.pacing }
}

/// That each of `packets` was sent.
pub open spec fn all_sent(packets: Seq<PacketFeed>) -> Seq<Exchange> {
    packets.map_values(|p: PacketFeed| sent(p))
}

/// Whether a packet can be told to the controller: its times and its size are
/// in range, and a probe names a cluster, its thresholds and a size.  The
/// controller asserts of every probe that its thresholds are positive, that
/// the bytes are not those that stand for no bound, and that a cluster holds
/// more than its first or last packet.
pub open spec fn can_feed(p: PacketFeed) -> bool {
    &&& 0 <= p.send_us < FEED_LIMIT
    &&& 0 <= p.receive_us < FEED_LIMIT
    &&& 0 <= p.size_bytes < PACKET_LIMIT
    &&& p.pacing.probe_cluster_id != NOT_A_PROBE ==> p.pacing.probe_cluster_min_probes > 0
        && 0 < p.pacing.probe_cluster_min_bytes < i64::MAX && p.size_bytes > 0
}

/// Whether a packet was sent for a probe cluster.
pub open spec fn is_probe(p: PacketFeed) -> bool {
    p.pacing.probe_cluster_id != NOT_A_PROBE
}

/// The bytes of some packets.
pub open spec fn size_of(packets: Seq<PacketFeed>) -> int
    decreases packets.len(),
{
    if packets.len() == 0 {
        0
    } else {
        size_of(packets.drop_last()) + packets.last().size_bytes
    }
}

/// The bytes of those that were sent for this probe cluster.
pub open spec fn cluster_size(packets: Seq<PacketFeed>, id: i32) -> int
    decreases packets.len(),
{
    if packets.len() == 0 {
        0
    } else {
        cluster_size(packets.drop_last(), id) + (if is_probe(packets.last())
            && packets.last().pacing.probe_cluster_id == id {
            packets.last().size_bytes as int
        } else {
            0
        })
    }
}

/// The earliest send among some packets.
pub open spec fn earliest_us(packets: Seq<PacketFeed>) -> i64
    decreases packets.len(),
{
    if packets.len() <= 1 || packets.last().send_us < earliest_us(packets.drop_last()) {
        packets.last().send_us
    } else {
        earliest_us(packets.drop_last())
    }
}

/// The latest send among some packets.
pub open spec fn latest_us(packets: Seq<PacketFeed>) -> i64
    decreases packets.len(),
{
    if packets.len() <= 1 || packets.last().send_us > latest_us(packets.drop_last()) {
        packets.last().send_us
    } else {
        latest_us(packets.drop_last())
    }
}

/// What a controller was told since it last looked at losses.
pub struct Unobserved {
    /// The send that its next look is counted from.
    pub since_us: Option<i64>,
    pub bytes: int,
}

impl Unobserved {
    /// After one more batch: the controller looks at losses once the sends have
    /// moved on far enough.
    pub open spec fn with(self, packets: Seq<PacketFeed>) -> Unobserved {
        let since_us = match self.since_us {
            Some(us) => us,
            None => earliest_us(packets),
        };
        if latest_us(packets) - since_us >= OBSERVATION_US {
            Unobserved { since_us: Some(latest_us(packets)), bytes: 0 }
        } else {
            Unobserved { since_us: Some(since_us), bytes: self.bytes + size_of(packets) }
        }
    }
}

/// What a controller with these calls behind it was told since it last looked
/// at losses.
pub open spec fn unobserved(log: Seq<Exchange>) -> Unobserved
    decreases log.len(),
{
    if log.len() == 0 {
        Unobserved { since_us: None, bytes: 0 }
    } else {
        match log.last() {
            Exchange::Feedback { packets, .. } => unobserved(log.drop_last()).with(packets),
            _ => unobserved(log.drop_last()),
        }
    }
}

/// The bytes of those that were sent for this probe cluster.
pub open spec fn cluster_bytes(log: Seq<Exchange>, id: i32) -> int
    decreases log.len(),
{
    if log.len() == 0 {
        0
    } else {
        cluster_bytes(log.drop_last(), id) + (match log.last() {
            Exchange::Feedback { packets, .. } => cluster_size(packets, id),
            _ => 0,
        })
    }
}

/// The time that a controller was told last.
pub open spec fn last_told_ms(log: Seq<Exchange>) -> int
    decreases log.len(),
{
    if log.len() == 0 {
        0
    } else {
        match log.last() {
            Exchange::Feedback { at_ms, .. } => at_ms as int,
            Exchange::Interval { at_ms, .. } => at_ms as int,
            _ => last_told_ms(log.drop_last()),
        }
    }
}

/// Whether a controller was told of any arrival.
pub open spec fn was_told(log: Seq<Exchange>) -> bool
    decreases log.len(),
{
    log.len() > 0 && (log.last() is Feedback || was_told(log.drop_last()))
}

/// A controller that was set up, or finished a batch with an interval, and was
/// told nothing since.
pub open spec fn is_at_rest(log: Seq<Exchange>) -> bool {
    log.len() > 0 && (log.last() is NetworkUp || log.last() is Interval)
}

/// Whether packets were sent and arrived close together.
pub open spec fn is_burst(packets: Seq<PacketFeed>) -> bool {
    forall|i: int, j: int|
        0 <= i < packets.len() && 0 <= j < packets.len() ==> (#[trigger] packets[i]).send_us - (
        #[trigger] packets[j]).send_us <= BURST_SEND_LIMIT_US && packets[i].receive_us
            - packets[j].receive_us <= BURST_ARRIVAL_LIMIT_US
}

/// Whether packets stand in the order of their arrival and none was longer
/// under way than one before it: then nothing shows an overuse.
pub open spec fn is_draining(packets: Seq<PacketFeed>) -> bool {
    forall|i: int, j: int|
        0 <= i < j < packets.len() ==> (#[trigger] packets[i]).receive_us <= (
        #[trigger] packets[j]).receive_us && packets[j].receive_us - packets[j].send_us
            <= packets[i].receive_us - packets[i].send_us
}

/// The round trip that a packet shows: the time since it was sent, without the
/// time that it waited for the arrival of another.
pub open spec fn round_trip(p: PacketFeed, last: PacketFeed, at_ms: int) -> int {
    at_ms * 1_000 - p.send_us - (last.receive_us - p.receive_us)
}

/// Whether the first batch leaves the controller's capacity at zero or above:
/// it holds no rate, or it shows no overuse, comes early and shows a short
/// round trip.
pub open spec fn can_begin(packets: Seq<PacketFeed>, at_ms: int) -> bool {
    ||| packets.len() < RATE_PACKETS
    ||| {
        &&& packets.len() <= BURST_PACKETS || is_burst(packets) || is_draining(packets)
        &&& at_ms <= FIRST_FEEDBACK_LIMIT_MS
        &&& exists|i: int, j: int|
            0 <= i < packets.len() && 0 <= j < packets.len() && #[trigger] round_trip(
                packets[i],
                packets[j],
                at_ms,
            ) <= FIRST_DELAY_LIMIT_US
    }
}

/// How long ago a packet of the next batch may have been sent.
pub open spec fn age_limit(log: Seq<Exchange>) -> i64 {
    if was_told(log) {
        AGE_LIMIT_US
    } else {
        FIRST_AGE_LIMIT_US
    }
}

/// Whether a controller with these calls behind it can be told of a batch: all
/// numbers stay in range, and time does not run backwards.  Its
/// `AimdRateControl` raises its rate by a share that would else be below zero,
/// and `from_value_float` asserts that it is not.
pub open spec fn may_tell(
    log: Seq<Exchange>,
    packets: Seq<PacketFeed>,
    at_ms: int,
    in_flight_bytes: int,
) -> bool {
    &&& forall|i: int|
        0 <= i < packets.len() ==> can_feed(#[trigger] packets[i]) && at_ms * 1_000
            - packets[i].send_us <= age_limit(log)
    &&& last_told_ms(log) <= at_ms
    &&& 0 <= at_ms < FEED_LIMIT / 1_000
    &&& 0 <= in_flight_bytes < i64::MAX
    &&& unobserved(log).bytes + size_of(packets) <= OBSERVATION_LIMIT
    &&& forall|i: int|
        0 <= i < packets.len() && is_probe(#[trigger] packets[i]) ==> cluster_bytes(
            log,
            packets[i].pacing.probe_cluster_id,
        ) + cluster_size(packets, packets[i].pacing.probe_cluster_id) <= CLUSTER_LIMIT
    &&& !was_told(log) ==> can_begin(packets, at_ms)
}

/// The same for a controller that was at rest and then told of every send.
pub open spec fn may_feed(
    log: Seq<Exchange>,
    packets: Seq<PacketFeed>,
    at_ms: int,
    in_flight_bytes: int,
) -> bool {
    let before = log.take(log.len() - packets.len());
    &&& 0 < packets.len() <= log.len()
    &&& log == before + all_sent(packets)
    &&& is_at_rest(before)
    &&& may_tell(before, packets, at_ms, in_flight_bytes)
}

/// A controller was told of arrivals at this time, and nothing since.
pub open spec fn awaits_interval(log: Seq<Exchange>, at_ms: int) -> bool {
    log.len() > 0 && (log.last() matches Exchange::Feedback { at_ms: told, .. } && told == at_ms)
}

/// The latest send among `records`, in whole milliseconds.
pub open spec fn latest_send_ms(records: Seq<AckArrival>) -> int
    decreases records.len(),
{
    if records.len() == 0 {
        0
    } else {
        let rest = latest_send_ms(records.drop_last());
        let last = (records.last().server_emit_us / 1_000) as int;
        if last > rest {
            last
        } else {
            rest
        }
    }
}

/// When the feedback counts as received: now, but not before the latest send
/// that it reports.
pub open spec fn feedback_ms(base: Instant, records: Seq<AckArrival>, now: Instant) -> int {
    let elapsed = if now.nanos > base.nanos {
        (now.nanos - base.nanos) / 1_000_000
    } else {
        0
    };
    if latest_send_ms(records) > elapsed {
        latest_send_ms(records)
    } else {
        elapsed
    }
}

/// Whether a derived delay is far outside what a path of this round trip can
/// give.
pub open spec fn is_implausible(path: Duration, derived: Duration) -> bool {
    derived.nanos > path.nanos * 10 + 1_000_000_000
}

/// The delay that a record seems to show.
pub open spec fn derived_delay(r: AckArrival) -> Duration {
    if r.client_arrival_us > r.server_emit_us {
        Duration { nanos: ((r.client_arrival_us - r.server_emit_us) * 1_000) as u128 }
    } else {
        Duration { nanos: 0 }
    }
}

/// `n` and one more, as far as the type goes.
pub open spec fn counted_up(n: u64, by: nat) -> u64 {
    if n + by > u64::MAX {
        u64::MAX
    } else {
        (n + by) as u64
    }
}

/// The rate of a pacer window, where it has one.
pub open spec fn window_rate(w: PacerWindow) -> Option<u64> {
    if w.data_bytes > 0 && w.time_us > 0 {
        let bps = w.data_bytes * MICROBITS_PER_BYTE / (w.time_us as int);
        if 0 < bps <= i64::MAX {
            Some(bps as u64)
        } else {
            None
        }
    } else {
        None
    }
}

pub open spec fn at_least_zero(n: int) -> int {
    if n > 0 {
        n
    } else {
        0
    }
}

/// A probe cluster as a request: the least bytes are those that its rate
/// sends in its duration, as far as the type goes.  A packet with the most that
/// the type holds cannot be told to the controller, which takes them for no
/// bound.
pub open spec fn request_for(c: ProbeConfig) -> ProbeRequest {
    let bytes = at_least_zero(c.target_bps as int) * at_least_zero(c.duration_us as int)
        / (MICROBITS_PER_BYTE as int);
    ProbeRequest {
        id: c.id,
        target_rate_bps: at_least_zero(c.target_bps as int) as u64,
        duration: Duration { nanos: (at_least_zero(c.duration_us as int) * 1_000) as u128 },
        min_probes: at_least_zero(c.probe_count as int) as i64,
        min_bytes: if bytes > i64::MAX {
            i64::MAX
        } else {
            bytes as i64
        },
    }
}

pub open spec fn requests_for(probes: Seq<ProbeConfig>) -> Seq<ProbeRequest> {
    probes.map_values(|c: ProbeConfig| request_for(c))
}

/// The newest requests, as many as are held.
pub open spec fn newest(requests: Seq<ProbeRequest>) -> Seq<ProbeRequest> {
    if requests.len() > MAX_PENDING_PROBE_REQUESTS {
        requests.skip(requests.len() - MAX_PENDING_PROBE_REQUESTS)
    } else {
        requests
    }
}

/// A driver, with the calls of its controller.
#[verifier::ext_equal]
pub struct DriverView {
    pub exchanges: Seq<Exchange>,
    pub base: Instant,
    pub estimate_bps: u64,
    pub samples_seen: u64,
    pub path_rtt: Option<Duration>,
    pub implausible_rtt_samples: u64,
    pub pacer_rate_bps: Option<u64>,
    pub pending: Seq<ProbeRequest>,
}

impl DriverView {
    pub open spec fn wf(self) -> bool {
        &&& self.pending.len() <= MAX_PENDING_PROBE_REQUESTS
        &&& is_at_rest(self.exchanges)
    }

    pub open spec fn fresh(initial_bps: u64, now: Instant) -> DriverView {
        DriverView {
            exchanges: seq![
                Exchange::Created {
                    min_bps: MIN_BPS,
                    max_bps: MAX_BPS,
                    start_bps: start_rate(initial_bps),
                },
                Exchange::NetworkUp,
            ],
            base: now,
            estimate_bps: initial_bps,
            samples_seen: 0,
            path_rtt: None,
            implausible_rtt_samples: 0,
            pacer_rate_bps: None,
            pending: Seq::empty(),
        }
    }

    pub open spec fn snapshot(self) -> BweSnapshot {
        BweSnapshot {
            bitrate_bps: self.estimate_bps,
            samples_seen: self.samples_seen,
            implausible_rtt_samples: self.implausible_rtt_samples,
            pacer_rate_bps: self.pacer_rate_bps,
        }
    }

    /// A delay was derived.
    pub open spec fn observed(self, derived: Duration) -> DriverView {
        if self.path_rtt is Some && is_implausible(self.path_rtt->0, derived) {
            DriverView {
                implausible_rtt_samples: counted_up(self.implausible_rtt_samples, 1),
                ..self
            }
        } else {
            self
        }
    }

    /// A batch was counted, and its last record looked at.
    pub open spec fn counted(self, records: Seq<AckArrival>) -> DriverView {
        DriverView { samples_seen: counted_up(self.samples_seen, records.len()), ..self }.observed(
            derived_delay(records.last()),
        )
    }

    /// The controller answered `u`: a positive target replaces the estimate,
    /// a pacer window with a rate replaces the pacer's, and the newest probe
    /// requests wait.
    pub open spec fn absorbed(self, u: UpdateView) -> DriverView {
        DriverView {
            estimate_bps: if u.target_bps is Some && u.target_bps->0 > 0 {
                u.target_bps->0 as u64
            } else {
                self.estimate_bps
            },
            pacer_rate_bps: if u.pacer is Some && window_rate(u.pacer->0) is Some {
                window_rate(u.pacer->0)
            } else {
                self.pacer_rate_bps
            },
            pending: newest(self.pending + requests_for(u.probes)),
            ..self
        }
    }

    /// A batch was told to the controller, every send before the feedback,
    /// and both its answers were kept.
    pub open spec fn updated(
        self,
        records: Seq<AckArrival>,
        now: Instant,
        in_flight: usize,
        first: UpdateView,
        second: UpdateView,
    ) -> DriverView {
        let packets = feeds_of(records);
        let at_ms = feedback_ms(self.base, records, now) as i64;
        DriverView {
            exchanges: self.exchanges + all_sent(packets) + seq![
                Exchange::Feedback {
                    packets,
                    at_ms,
                    in_flight_bytes: in_flight as i64,
                    answer: first,
                },
                Exchange::Interval { at_ms, answer: second },
            ],
            ..self.counted(records).absorbed(first).absorbed(second)
        }
    }
}

/// Calls `GoogCcNetworkController::new`, to work from packet feedback alone.
///
/// The rates are noted as the controller's first call. Of its estimates
/// nothing is claimed, here and below: they are floating-point numbers out of
/// powers and exponentials, whose last digits differ between machines.
#[verifier::external_body]
fn new_controller(min_bps: i64, max_bps: i64, start_bps: i64) -> (ctl: GoogCcNetworkController)
    requires
        0 < min_bps <= start_bps <= max_bps < i64::MAX,
    ensures
        exchanges(ctl) == seq![Exchange::Created { min_bps, max_bps, start_bps }],
{
    let constraints = TargetRateConstraints {
        at_time: Timestamp::from_millis(0),
        min_data_rate: Some(DataRate::from_bits_per_sec(min_bps)),
        max_data_rate: Some(DataRate::from_bits_per_sec(max_bps)),
        starting_rate: Some(DataRate::from_bits_per_sec(start_bps)),
    };
    let config = NetworkControllerConfig { constraints, ..Default::default() };
    GoogCcNetworkController::new(config, GoogCcConfig { feedback_only: true })
}

/// Calls `on_network_availability`, without which the controller never asks
/// for a probe. The call is noted; its answer is empty before any rate is set.
#[verifier::external_body]
fn announce_network(ctl: &mut GoogCcNetworkController)
    ensures
        exchanges(*final(ctl)) == exchanges(*old(ctl)).push(Exchange::NetworkUp),
{
    let at_time = Timestamp::from_millis(0);
    let _ = ctl.on_network_availability(NetworkAvailability { at_time, network_available: true });
}

/// Calls `on_sent_packet`. The call is noted with all that the controller is
/// told of the packet; its answer is not used.
#[verifier::external_body]
fn note_sent(ctl: &mut GoogCcNetworkController, p: &PacketFeed)
    requires
        can_feed(*p),
    ensures
        exchanges(*final(ctl)) == exchanges(*old(ctl)).push(sent(*p)),
{
    let _ = ctl.on_sent_packet(SentPacket {
        send_time: Timestamp::from_micros(p.send_us),
        size: DataSize::from_bytes(p.size_bytes),
        pacing_info: PacedPacketInfo {
            send_bitrate: DataRate::zero(),
            probe_cluster_id: p.pacing.probe_cluster_id,
            probe_cluster_min_probes: p.pacing.probe_cluster_min_probes,
            probe_cluster_min_bytes: p.pacing.probe_cluster_min_bytes,
            probe_cluster_bytes_sent: p.pacing.probe_cluster_bytes_sent,
        },
        ..Default::default()
    });
}

/// Calls `on_transport_packets_feedback`. The call is noted with all that the
/// controller is told and with its answer.
///
/// The controller asserts as it goes that its rates, sizes and capacity are in
/// range. They are if no number is too large, no time lies before an earlier
/// one, the sends of a batch come right before it and an interval right behind
/// it, and the first batch is early and shows a short round trip and no
/// overuse: then every average that it takes is one of numbers that are not
/// negative, with weights between zero and one. Each limit names what it
/// guards.
/// Nothing is claimed of what the answer holds.
#[verifier::external_body]
fn feed(
    ctl: &mut GoogCcNetworkController,
    packets: &[PacketFeed],
    feedback_ms: i64,
    in_flight_bytes: i64,
) -> (update: NetworkControlUpdate)
    requires
        may_feed(
            exchanges(*old(ctl)),
            packets@,
            feedback_ms as int,
            in_flight_bytes as int,
        ),
    ensures
        exchanges(*final(ctl)) == exchanges(*old(ctl)).push(
            Exchange::Feedback {
                packets: packets@,
                at_ms: feedback_ms,
                in_flight_bytes,
                answer: answer_of(update),
            },
        ),
{
    let convert = |p: &PacketFeed| {
        let mut pacing_info = PacedPacketInfo::default();
        pacing_info.probe_cluster_id = p.pacing.probe_cluster_id;
        pacing_info.probe_cluster_min_probes = p.pacing.probe_cluster_min_probes;
        pacing_info.probe_cluster_min_bytes = p.pacing.probe_cluster_min_bytes;
        pacing_info.probe_cluster_bytes_sent = p.pacing.probe_cluster_bytes_sent;
        let (send_time, size) = (Timestamp::from_micros(p.send_us), DataSize::from_bytes(p.size_bytes));
        let sent_packet = SentPacket { send_time, size, pacing_info, ..Default::default() };
        let receive_time = Timestamp::from_micros(p.receive_us);
        PacketResult { sent_packet, receive_time, ..Default::default() }
    };
    let packet_feedbacks = packets.iter().map(convert).collect();
    let feedback_time = Timestamp::from_millis(feedback_ms);
    let data_in_flight = DataSize::from_bytes(in_flight_bytes);
    ctl.on_transport_packets_feedback(TransportPacketsFeedback { feedback_time, data_in_flight, packet_feedbacks, sendless_arrival_times: Vec::new() })
}

/// Calls `on_process_interval` right behind a batch, as of the same time. The
/// call is noted with its answer; as with [`feed`], nothing is claimed of what
/// the answer holds.
#[verifier::external_body]
fn process(ctl: &mut GoogCcNetworkController, at_ms: i64) -> (update: NetworkControlUpdate)
    requires
        0 <= at_ms < FEED_LIMIT / 1_000,
        awaits_interval(exchanges(*old(ctl)), at_ms as int),
    ensures
        exchanges(*final(ctl)) == exchanges(*old(ctl)).push(
            Exchange::Interval { at_ms, answer: answer_of(update) },
        ),
{
    let at_time = Timestamp::from_millis(at_ms);
    ctl.on_process_interval(ProcessInterval { at_time, ..Default::default() })
}

/// Reads the rates, windows and probe clusters out of the controller's
/// answer, through `bps_or`, `bytes_or` and `us_or` of its units: an unbounded
/// one reads as zero.
#[verifier::external_body]
fn plain_update(update: NetworkControlUpdate) -> (u: ControlUpdate)
    ensures
        u@ == answer_of(update),
{
    let probe = |c: &ProbeClusterConfig| ProbeConfig {
        id: c.id,
        target_bps: c.target_data_rate.bps_or(0),
        duration_us: c.target_duration.us_or(0),
        probe_count: c.target_probe_count,
    };
    let pacer = |w: PacerConfig| PacerWindow {
        data_bytes: w.data_window.bytes_or(0),
        time_us: w.time_window.us_or(0),
    };
    let target_bps = update.target_rate.map(|t| t.target_rate.bps_or(0));
    let probes = update.probe_cluster_configs.iter().map(probe).collect();
    ControlUpdate { target_bps, pacer: update.pacer_config.map(pacer), probes }
}

/// Computes `start_rate`.
pub fn starting_rate(initial_bps: u64) -> (bps: i64)
    ensures
        bps == start_rate(initial_bps),
        MIN_BPS <= bps <= MAX_BPS,
{
    if initial_bps < MIN_BPS as u64 || initial_bps > i64::MAX as u64 {
        MIN_BPS
    } else if initial_bps > MAX_BPS as u64 {
        MAX_BPS
    } else {
        initial_bps as i64
    }
}

/// What the controller is told of a packet's probe cluster.
pub fn pacing_info_for(probe: Option<ProbeTag>) -> (info: PacingInfo)
    ensures
        info == pacing_of(probe),
{
    match probe {
        Some(p) => PacingInfo {
            probe_cluster_id: p.id,
            probe_cluster_min_probes: p.min_probes,
            probe_cluster_min_bytes: p.min_bytes,
            probe_cluster_bytes_sent: p.bytes_sent_before,
        },
        None => PacingInfo {
            probe_cluster_id: NOT_A_PROBE,
            probe_cluster_min_probes: NO_THRESHOLD,
            probe_cluster_min_bytes: NO_THRESHOLD,
            probe_cluster_bytes_sent: 0,
        },
    }
}

/// Turns a probe cluster into a request.
pub fn to_probe_request(c: &ProbeConfig) -> (request: ProbeRequest)
    ensures
        request == request_for(*c),
{
    let rate: i64 = if c.target_bps > 0 {
        c.target_bps
    } else {
        0
    };
    let us: i64 = if c.duration_us > 0 {
        c.duration_us
    } else {
        0
    };
    let min_probes: i64 = if c.probe_count > 0 {
        c.probe_count as i64
    } else {
        0
    };
    assert(0 <= rate * us <= i64::MAX * i64::MAX) by (nonlinear_arith)
        requires
            0 <= rate <= i64::MAX,
            0 <= us <= i64::MAX,
    ;
    let bytes: i128 = (rate as i128 * us as i128) / MICROBITS_PER_BYTE as i128;
    let min_bytes: i64 = if bytes > i64::MAX as i128 {
        i64::MAX
    } else {
        bytes as i64
    };
    ProbeRequest {
        id: c.id,
        target_rate_bps: rate as u64,
        duration: Duration::from_micros(us as u64),
        min_probes,
        min_bytes,
    }
}

/// The rate of a pacer window, where it has one.
fn rate_of_window(w: PacerWindow) -> (bps: Option<u64>)
    ensures
        bps == window_rate(w),
{
    if w.data_bytes > 0 && w.time_us > 0 {
        assert(0 <= w.data_bytes * MICROBITS_PER_BYTE <= i64::MAX * MICROBITS_PER_BYTE)
            by (nonlinear_arith)
            requires
                0 <= w.data_bytes <= i64::MAX,
                MICROBITS_PER_BYTE > 0,
        ;
        let bps: i128 = (w.data_bytes as i128 * MICROBITS_PER_BYTE as i128) / w.time_us as i128;
        if bps > 0 && bps <= i64::MAX as i128 {
            Some(bps as u64)
        } else {
            None
        }
    } else {
        None
    }
}

/// What the controller is told of a batch, packet by packet.
pub fn feeds_for(records: &[AckArrival]) -> (packets: Vec<PacketFeed>)
    ensures
        packets@ == feeds_of(records@),
{
    let mut packets: Vec<PacketFeed> = Vec::new();
    let mut i: usize = 0;
    while i < records.len()
        invariant
            i <= records@.len(),
            packets@ == feeds_of(records@.take(i as int)),
        decreases records@.len() - i,
    {
        let r = records[i];
        packets.push(
            PacketFeed {
                send_us: r.server_emit_us as i64,
                receive_us: r.client_arrival_us as i64,
                size_bytes: r.size_bytes as i64,
                pacing: pacing_info_for(r.probe),
            },
        );
        i = i + 1;
        assert(packets@ =~= feeds_of(records@.take(i as int)));
    }
    assert(records@.take(i as int) =~= records@);
    packets
}

/// What a controller was told so far, as far as it bounds what it can still be
/// told.
struct Told {
    last_ms: i64,
    any: bool,
    since_us: Option<i64>,
    bytes: u64,
    clusters: HashMap<i32, u64>,
}

impl Told {
    spec fn of_cluster(&self, id: i32) -> int {
        if self.clusters@.dom().contains(id) {
            self.clusters@[id] as int
        } else {
            0
        }
    }

    /// It is what the controller with these calls was told.
    spec fn tallies(&self, log: Seq<Exchange>) -> bool {
        &&& self.last_ms == last_told_ms(log)
        &&& self.any == was_told(log)
        &&& self.since_us == unobserved(log).since_us
        &&& self.bytes == unobserved(log).bytes
        &&& forall|id: i32| self.of_cluster(id) == #[trigger] cluster_bytes(log, id)
    }

    fn new() -> (t: Self)
        ensures
            t.last_ms == 0 && !t.any && t.since_us is None && t.bytes == 0,
            forall|id: i32| t.of_cluster(id) == 0,
    {
        Told { last_ms: 0, any: false, since_us: None, bytes: 0, clusters: HashMap::new() }
    }

    /// The bytes told for a probe cluster.
    fn cluster(&self, id: i32) -> (n: u64)
        ensures
            n == self.of_cluster(id),
    {
        match self.clusters.get(&id) {
            Some(n) => *n,
            None => 0,
        }
    }

    /// Whether the controller can be told of this batch.
    fn allows(
        &self,
        packets: &[PacketFeed],
        at_ms: i64,
        in_flight_bytes: i64,
        Ghost(log): Ghost<Seq<Exchange>>,
    ) -> (b: bool)
        requires
            self.tallies(log),
            0 <= at_ms < FEED_LIMIT / 1_000,
            0 <= in_flight_bytes < i64::MAX,
        ensures
            b == may_tell(log, packets@, at_ms as int, in_flight_bytes as int),
    {
        let at_us: i64 = at_ms * 1_000;
        let limit: i64 = if self.any {
            AGE_LIMIT_US
        } else {
            FIRST_AGE_LIMIT_US
        };
        let mut bytes: i128 = 0;
        let mut i: usize = 0;
        while i < packets.len()
            invariant
                i <= packets@.len(),
                0 <= at_ms < FEED_LIMIT / 1_000,
                at_us == at_ms * 1_000,
                limit == age_limit(log),
                bytes == size_of(packets@.take(i as int)),
                0 <= bytes <= i * PACKET_LIMIT,
                forall|j: int|
                    0 <= j < i ==> can_feed(#[trigger] packets@[j]) && at_us - packets@[j].send_us
                        <= limit,
            decreases packets@.len() - i,
        {
            let p = packets[i];
            if !is_feedable(&p) || at_us - p.send_us > limit {
                assert(packets@[i as int] == p);
                return false;
            }
            proof {
                assert(packets@.take(i + 1).drop_last() =~= packets@.take(i as int));
                assert(packets@.take(i + 1).last() == p);
            }
            bytes = bytes + p.size_bytes as i128;
            i = i + 1;
        }
        assert(packets@.take(i as int) =~= packets@);
        if self.last_ms > at_ms || self.bytes as i128 + bytes > OBSERVATION_LIMIT as i128 {
            return false;
        }
        if !self.any && packets.len() >= RATE_PACKETS && !(at_ms <= FIRST_FEEDBACK_LIMIT_MS
            && has_short_round_trip(packets, at_ms) && (packets.len() <= BURST_PACKETS
            || came_close_together(packets) || came_ever_sooner(packets))) {
            return false;
        }
        self.clusters_allow(packets, Ghost(log))
    }

    /// Whether no probe cluster of this batch grows too large.
    fn clusters_allow(&self, packets: &[PacketFeed], Ghost(log): Ghost<Seq<Exchange>>) -> (b: bool)
        requires
            self.tallies(log),
            forall|j: int| 0 <= j < packets@.len() ==> can_feed(#[trigger] packets@[j]),
        ensures
            b == forall|i: int|
                0 <= i < packets@.len() && is_probe(#[trigger] packets@[i]) ==> cluster_bytes(
                    log,
                    packets@[i].pacing.probe_cluster_id,
                ) + cluster_size(packets@, packets@[i].pacing.probe_cluster_id) <= CLUSTER_LIMIT,
    {
        let mut sums: HashMap<i32, u64> = HashMap::new();
        let mut k: usize = 0;
        while k < packets.len()
            invariant
                k <= packets@.len(),
                self.tallies(log),
                forall|j: int| 0 <= j < packets@.len() ==> can_feed(#[trigger] packets@[j]),
                forall|id: i32| #[trigger]
                    cluster_size(packets@.take(k as int), id) == (if sums@.dom().contains(id) {
                        sums@[id] as int
                    } else {
                        0
                    }),
                forall|id: i32| #[trigger]
                    cluster_size(packets@.take(k as int), id) <= CLUSTER_LIMIT,
                forall|j: int|
                    0 <= j < k && is_probe(#[trigger] packets@[j]) ==> cluster_bytes(
                        log,
                        packets@[j].pacing.probe_cluster_id,
                    ) + cluster_size(
                        packets@.take(k as int),
                        packets@[j].pacing.probe_cluster_id,
                    ) <= CLUSTER_LIMIT,
            decreases packets@.len() - k,
        {
            let p = packets[k];
            let id: i32 = p.pacing.probe_cluster_id;
            let ghost now = packets@.take(k as int);
            let ghost next = packets@.take(k + 1);
            proof {
                assert(can_feed(packets@[k as int]));
                assert(next.drop_last() =~= now);
                assert(next.last() == p);
                assert(packets@[k as int] == p);
            }
            if id != NOT_A_PROBE {
                let held: u64 = match sums.get(&id) {
                    Some(n) => *n,
                    None => 0,
                };
                assert(held == cluster_size(now, id));
                let sum: u64 = held + p.size_bytes as u64;
                assert(sum == cluster_size(next, id));
                let told: u64 = self.cluster(id);
                assert(told == cluster_bytes(log, id));
                if told as u128 + sum as u128 > CLUSTER_LIMIT as u128 {
                    proof {
                        cluster_grows(packets@, k + 1, id);
                        assert(is_probe(packets@[k as int]));
                    }
                    return false;
                }
                let _ = sums.insert(id, sum);
            }
            proof {
                assert forall|x: i32| #[trigger] cluster_size(next, x) == (if sums@.dom().contains(
                    x,
                ) {
                    sums@[x] as int
                } else {
                    0
                }) && cluster_size(next, x) <= CLUSTER_LIMIT by {
                    assert(cluster_size(now, x) <= CLUSTER_LIMIT);
                }
                assert forall|j: int| 0 <= j < k + 1 && is_probe(#[trigger] packets@[j]) implies cluster_bytes(
                    log,
                    packets@[j].pacing.probe_cluster_id,
                ) + cluster_size(next, packets@[j].pacing.probe_cluster_id) <= CLUSTER_LIMIT by {
                    let x = packets@[j].pacing.probe_cluster_id;
                    if x != id {
                        assert(cluster_size(next, x) == cluster_size(now, x));
                    }
                }
            }
            k = k + 1;
        }
        assert(packets@.take(k as int) =~= packets@);
        true
    }

    /// Notes a batch that the controller was told.
    fn note(
        &mut self,
        packets: &[PacketFeed],
        at_ms: i64,
        Ghost(log): Ghost<Seq<Exchange>>,
        Ghost(after): Ghost<Seq<Exchange>>,
    )
        requires
            old(self).tallies(log),
            packets@.len() > 0,
            forall|i: int| 0 <= i < packets@.len() ==> can_feed(#[trigger] packets@[i]),
            unobserved(log).bytes + size_of(packets@) <= OBSERVATION_LIMIT,
            forall|i: int|
                0 <= i < packets@.len() && is_probe(#[trigger] packets@[i]) ==> cluster_bytes(
                    log,
                    packets@[i].pacing.probe_cluster_id,
                ) + cluster_size(packets@, packets@[i].pacing.probe_cluster_id) <= CLUSTER_LIMIT,
            after.len() == 2,
            after[0] matches Exchange::Feedback { packets: p, at_ms: t, .. } && p == packets@ && t
                == at_ms,
            after[1] matches Exchange::Interval { at_ms: t, .. } && t == at_ms,
        ensures
            final(self).tallies(log + all_sent(packets@) + after),
    {
        let mut earliest: i64 = packets[0].send_us;
        let mut latest: i64 = packets[0].send_us;
        let mut i: usize = 0;
        while i < packets.len()
            invariant
                i <= packets@.len(),
                packets@.len() > 0,
                forall|j: int| 0 <= j < packets@.len() ==> can_feed(#[trigger] packets@[j]),
                unobserved(log).bytes + size_of(packets@) <= OBSERVATION_LIMIT,
                i == 0 ==> earliest == packets@[0].send_us && latest == packets@[0].send_us,
                i > 0 ==> earliest == earliest_us(packets@.take(i as int)) && latest == latest_us(
                    packets@.take(i as int),
                ),
                0 <= earliest < FEED_LIMIT && 0 <= latest < FEED_LIMIT,
                self.since_us == unobserved(log).since_us,
                forall|j: int|
                    0 <= j < packets@.len() && is_probe(#[trigger] packets@[j]) ==> cluster_bytes(
                        log,
                        packets@[j].pacing.probe_cluster_id,
                    ) + cluster_size(packets@, packets@[j].pacing.probe_cluster_id)
                        <= CLUSTER_LIMIT,
                self.bytes == unobserved(log).bytes + size_of(packets@.take(i as int)),
                forall|id: i32| self.of_cluster(id) == #[trigger] cluster_bytes(log, id)
                    + cluster_size(packets@.take(i as int), id),
            decreases packets@.len() - i,
        {
            let p = packets[i];
            let id: i32 = p.pacing.probe_cluster_id;
            proof {
                assert(can_feed(packets@[i as int]));
                assert(packets@.take(i + 1).drop_last() =~= packets@.take(i as int));
                assert(packets@.take(i + 1).last() == p);
                part_is_smaller(packets@, i + 1);
                cluster_grows(packets@, i + 1, id);
            }
            self.bytes = self.bytes + p.size_bytes as u64;
            if p.send_us < earliest {
                earliest = p.send_us;
            }
            if p.send_us > latest {
                latest = p.send_us;
            }
            if id != NOT_A_PROBE {
                assert(is_probe(packets@[i as int]));
                assert(self.of_cluster(id) == cluster_bytes(log, id) + cluster_size(
                    packets@.take(i as int),
                    id,
                ));
                let sum: u64 = self.cluster(id) + p.size_bytes as u64;
                let ghost before = *self;
                let _ = self.clusters.insert(id, sum);
                assert forall|x: i32| self.of_cluster(x) == #[trigger] cluster_bytes(log, x)
                    + cluster_size(packets@.take(i + 1), x) by {
                    assert(before.of_cluster(x) == cluster_bytes(log, x) + cluster_size(
                        packets@.take(i as int),
                        x,
                    ));
                    if x != id {
                        assert(self.of_cluster(x) == before.of_cluster(x));
                    }
                }
            }
            i = i + 1;
        }
        let since_us: i64 = match self.since_us {
            Some(us) => us,
            None => earliest,
        };
        if latest as i128 - since_us as i128 >= OBSERVATION_US as i128 {
            self.since_us = Some(latest);
            self.bytes = 0;
        } else {
            self.since_us = Some(since_us);
        }
        self.last_ms = at_ms;
        self.any = true;
        proof {
            assert(packets@.take(i as int) =~= packets@);
            let sent_to = log + all_sent(packets@);
            sends_tell_nothing(log, packets@);
            let all = sent_to + after;
            assert(all.drop_last().drop_last() =~= sent_to);
            assert(all.last() == after[1]);
            assert(all.drop_last().last() == after[0]);
            reveal_with_fuel(unobserved, 3);
            reveal_with_fuel(was_told, 3);
            reveal_with_fuel(cluster_bytes, 3);
            assert(unobserved(all) == unobserved(log).with(packets@));
            assert forall|id: i32| self.of_cluster(id) == #[trigger] cluster_bytes(all, id) by {
                assert(cluster_bytes(sent_to, id) == cluster_bytes(log, id));
                assert(self.of_cluster(id) == cluster_bytes(log, id) + cluster_size(packets@, id));
            }
        }
    }
}

/// Computes `can_feed`.
fn is_feedable(p: &PacketFeed) -> (b: bool)
    ensures
        b == can_feed(*p),
{
    let limit: i64 = FEED_LIMIT as i64;
    0 <= p.send_us && p.send_us < limit && 0 <= p.receive_us && p.receive_us < limit && 0
        <= p.size_bytes && p.size_bytes < PACKET_LIMIT && (p.pacing.probe_cluster_id == NOT_A_PROBE
        || (p.pacing.probe_cluster_min_probes > 0 && p.pacing.probe_cluster_min_bytes > 0
        && p.pacing.probe_cluster_min_bytes < i64::MAX && p.size_bytes > 0))
}

/// Computes `is_burst`.
fn came_close_together(packets: &[PacketFeed]) -> (b: bool)
    requires
        forall|j: int| 0 <= j < packets@.len() ==> can_feed(#[trigger] packets@[j]),
    ensures
        b == is_burst(packets@),
{
    if packets.len() == 0 {
        return true;
    }
    let (mut first, mut last, mut early, mut late): (usize, usize, usize, usize) = (0, 0, 0, 0);
    let mut i: usize = 1;
    while i < packets.len()
        invariant
            1 <= i <= packets@.len(),
            first < packets@.len() && last < packets@.len(),
            early < packets@.len() && late < packets@.len(),
            forall|j: int|
                0 <= j < i ==> packets@[first as int].send_us <= (#[trigger] packets@[j]).send_us
                    <= packets@[last as int].send_us && packets@[early as int].receive_us
                    <= packets@[j].receive_us <= packets@[late as int].receive_us,
        decreases packets@.len() - i,
    {
        let p = packets[i];
        if p.send_us < packets[first].send_us {
            first = i;
        }
        if p.send_us > packets[last].send_us {
            last = i;
        }
        if p.receive_us < packets[early].receive_us {
            early = i;
        }
        if p.receive_us > packets[late].receive_us {
            late = i;
        }
        i = i + 1;
    }
    assert(can_feed(packets@[first as int]) && can_feed(packets@[last as int]));
    assert(can_feed(packets@[early as int]) && can_feed(packets@[late as int]));
    packets[last].send_us - packets[first].send_us <= BURST_SEND_LIMIT_US
        && packets[late].receive_us - packets[early].receive_us <= BURST_ARRIVAL_LIMIT_US
}

/// Computes `is_draining`.
fn came_ever_sooner(packets: &[PacketFeed]) -> (b: bool)
    requires
        forall|j: int| 0 <= j < packets@.len() ==> can_feed(#[trigger] packets@[j]),
    ensures
        b == is_draining(packets@),
{
    let mut k: usize = 1;
    while k < packets.len()
        invariant
            1 <= k,
            packets@.len() > 0 ==> k <= packets@.len(),
            forall|j: int| 0 <= j < packets@.len() ==> can_feed(#[trigger] packets@[j]),
            forall|i: int, j: int|
                0 <= i < j < k && j < packets@.len() ==> (#[trigger] packets@[i]).receive_us <= (
                #[trigger] packets@[j]).receive_us && packets@[j].receive_us - packets@[j].send_us
                    <= packets@[i].receive_us - packets@[i].send_us,
        decreases packets@.len() - k,
    {
        let p = packets[k - 1];
        let q = packets[k];
        assert(can_feed(packets@[k - 1]) && can_feed(packets@[k as int]));
        if q.receive_us < p.receive_us || q.receive_us - q.send_us > p.receive_us - p.send_us {
            assert(packets@[k - 1] == p && packets@[k as int] == q);
            return false;
        }
        k = k + 1;
    }
    true
}

/// Whether some packet shows a round trip that the first batch may show.
fn has_short_round_trip(packets: &[PacketFeed], at_ms: i64) -> (b: bool)
    requires
        0 <= at_ms < FEED_LIMIT / 1_000,
        packets@.len() > 0,
        forall|j: int| 0 <= j < packets@.len() ==> can_feed(#[trigger] packets@[j]),
    ensures
        b == exists|i: int, j: int|
            0 <= i < packets@.len() && 0 <= j < packets@.len() && #[trigger] round_trip(
                packets@[i],
                packets@[j],
                at_ms as int,
            ) <= FIRST_DELAY_LIMIT_US,
{
    let (mut quick, mut late): (usize, usize) = (0, 0);
    let mut k: usize = 1;
    while k < packets.len()
        invariant
            1 <= k <= packets@.len(),
            quick < packets@.len() && late < packets@.len(),
            forall|j: int| 0 <= j < packets@.len() ==> can_feed(#[trigger] packets@[j]),
            forall|j: int|
                0 <= j < k ==> (#[trigger] packets@[j]).receive_us
                    <= packets@[late as int].receive_us && packets@[j].send_us
                    - packets@[j].receive_us <= packets@[quick as int].send_us
                    - packets@[quick as int].receive_us,
        decreases packets@.len() - k,
    {
        let p = packets[k];
        assert(can_feed(packets@[k as int]) && can_feed(packets@[quick as int]));
        if p.receive_us > packets[late].receive_us {
            late = k;
        }
        if p.send_us - p.receive_us > packets[quick].send_us - packets[quick].receive_us {
            quick = k;
        }
        k = k + 1;
    }
    let (q, l) = (packets[quick], packets[late]);
    assert(can_feed(packets@[quick as int]) && can_feed(packets@[late as int]));
    let rtt: i64 = at_ms * 1_000 - q.send_us - (l.receive_us - q.receive_us);
    proof {
        assert(rtt == round_trip(packets@[quick as int], packets@[late as int], at_ms as int));
        assert forall|i: int, j: int|
            0 <= i < packets@.len() && 0 <= j < packets@.len() implies #[trigger] round_trip(
            packets@[i],
            packets@[j],
            at_ms as int,
        ) >= rtt by {}
    }
    rtt <= FIRST_DELAY_LIMIT_US
}

/// The first packets of a batch have no more bytes than all of them.
proof fn part_is_smaller(packets: Seq<PacketFeed>, i: int)
    requires
        0 <= i <= packets.len(),
        forall|j: int| 0 <= j < packets.len() ==> can_feed(#[trigger] packets[j]),
    ensures
        size_of(packets.take(i)) <= size_of(packets),
    decreases packets.len() - i,
{
    if i == packets.len() {
        assert(packets.take(i) =~= packets);
    } else {
        part_is_smaller(packets, i + 1);
        assert(can_feed(packets[i]));
        assert(packets.take(i + 1).drop_last() =~= packets.take(i));
        assert(packets.take(i + 1).last() == packets[i]);
    }
}

/// The first packets of a batch have no more bytes of a cluster than all of
/// them.
proof fn cluster_grows(packets: Seq<PacketFeed>, i: int, id: i32)
    requires
        0 <= i <= packets.len(),
        forall|j: int| 0 <= j < packets.len() ==> can_feed(#[trigger] packets[j]),
    ensures
        cluster_size(packets.take(i), id) <= cluster_size(packets, id),
    decreases packets.len() - i,
{
    if i == packets.len() {
        assert(packets.take(i) =~= packets);
    } else {
        cluster_grows(packets, i + 1, id);
        assert(can_feed(packets[i]));
        assert(packets.take(i + 1).drop_last() =~= packets.take(i));
        assert(packets.take(i + 1).last() == packets[i]);
    }
}

/// A send alone tells no arrival and no time.
proof fn sends_tell_nothing(log: Seq<Exchange>, packets: Seq<PacketFeed>)
    ensures
        last_told_ms(log + all_sent(packets)) == last_told_ms(log),
        was_told(log + all_sent(packets)) == was_told(log),
        unobserved(log + all_sent(packets)) == unobserved(log),
        forall|id: i32| #[trigger]
            cluster_bytes(log + all_sent(packets), id) == cluster_bytes(log, id),
    decreases packets.len(),
{
    let all = log + all_sent(packets);
    if packets.len() == 0 {
        assert(all =~= log);
    } else {
        let init = packets.drop_last();
        sends_tell_nothing(log, init);
        assert(all.drop_last() =~= log + all_sent(init));
        assert(all.last() == sent(packets.last()));
        assert forall|id: i32| #[trigger] cluster_bytes(all, id) == cluster_bytes(log, id) by {
            assert(cluster_bytes(log + all_sent(init), id) == cluster_bytes(log, id));
        }
    }
}

/// Drives one controller.
pub struct GoogCcDriver {
    ctl: GoogCcNetworkController,
    told: Told,
    base: Instant,
    estimate_bps: u64,
    samples_seen: u64,
    path_rtt: Option<Duration>,
    implausible_rtt_samples: u64,
    pacer_rate_bps: Option<u64>,
    pending_probe_requests: VecDeque<ProbeRequest>,
}

impl View for GoogCcDriver {
    type V = DriverView;

    closed spec fn view(&self) -> DriverView {
        DriverView {
            exchanges: exchanges(self.ctl),
            base: self.base,
            estimate_bps: self.estimate_bps,
            samples_seen: self.samples_seen,
            path_rtt: self.path_rtt,
            implausible_rtt_samples: self.implausible_rtt_samples,
            pacer_rate_bps: self.pacer_rate_bps,
            pending: self.pending_probe_requests@,
        }
    }
}

/// Whether the times of a record can be told to a controller.
pub open spec fn in_range(r: AckArrival) -> bool {
    r.server_emit_us < FEED_LIMIT && r.client_arrival_us < FEED_LIMIT
}

/// Whether a batch can be told to the controller of a driver.
pub open spec fn can_update(
    v: DriverView,
    records: Seq<AckArrival>,
    now: Instant,
    in_flight: usize,
) -> bool {
    &&& forall|i: int| 0 <= i < records.len() ==> in_range(#[trigger] records[i])
    &&& may_tell(
        v.exchanges,
        feeds_of(records),
        feedback_ms(v.base, records, now),
        in_flight as int,
    )
}

impl GoogCcDriver {
    /// The driver's invariant.
    pub closed spec fn wf(&self) -> bool {
        self@.wf() && self.told.tallies(self@.exchanges)
    }

    /// A controller for a network that is up, starting from `initial_bps`.
    pub fn new(initial_bps: u64, now: Instant) -> (driver: Self)
        ensures
            driver@ == DriverView::fresh(initial_bps, now),
            driver@.wf(),
            driver.wf(),
    {
        let mut ctl = new_controller(MIN_BPS, MAX_BPS, starting_rate(initial_bps));
        announce_network(&mut ctl);
        let driver = GoogCcDriver {
            ctl,
            told: Told::new(),
            base: now,
            estimate_bps: initial_bps,
            samples_seen: 0,
            path_rtt: None,
            implausible_rtt_samples: 0,
            pacer_rate_bps: None,
            pending_probe_requests: VecDeque::new(),
        };
        proof {
            assert(driver@ =~= DriverView::fresh(initial_bps, now));
            let log = driver@.exchanges;
            assert(log.drop_last().drop_last() =~= Seq::empty());
            reveal_with_fuel(unobserved, 3);
            reveal_with_fuel(was_told, 3);
            reveal_with_fuel(cluster_bytes, 3);
            reveal_with_fuel(last_told_ms, 3);
        }
        driver
    }

    /// Records the measured round trip of the path. It only bounds what is
    /// plausible; the controller derives its own.
    pub fn note_path_rtt(&mut self, rtt: Duration)
        requires
            old(self).wf(),
        ensures
            final(self)@ == (DriverView { path_rtt: Some(rtt), ..old(self)@ }),
            final(self).wf(),
    {
        self.path_rtt = Some(rtt);
    }

    /// Counts a derived delay that no real link shows: more than ten round
    /// trips and a second. Then the two times come from different clocks.
    pub fn observe_derived_rtt(&mut self, derived: Duration)
        requires
            old(self).wf(),
        ensures
            final(self)@ == old(self)@.observed(derived),
            final(self).wf(),
    {
        if let Some(path) = self.path_rtt {
            if derived.nanos > 1_000_000_000 && (derived.nanos - 1_000_000_001) / 10 >= path.nanos {
                self.implausible_rtt_samples = self.implausible_rtt_samples.saturating_add(1);
            }
        }
    }

    /// Whether the controller can be told of this batch.
    pub fn can_tell(&self, records: &[AckArrival], now: Instant, data_in_flight_bytes: usize) -> (b:
        bool)
        requires
            self.wf(),
        ensures
            b == can_update(self@, records@, now, data_in_flight_bytes),
    {
        let mut i: usize = 0;
        while i < records.len()
            invariant
                i <= records@.len(),
                forall|j: int| 0 <= j < i ==> in_range(#[trigger] records@[j]),
            decreases records@.len() - i,
        {
            if records[i].server_emit_us >= FEED_LIMIT || records[i].client_arrival_us
                >= FEED_LIMIT {
                assert(!in_range(records@[i as int]));
                return false;
            }
            i = i + 1;
        }
        let at_ms: u128 = self.feedback_time_ms(records, now);
        if at_ms >= (FEED_LIMIT / 1_000) as u128 || data_in_flight_bytes as u64 >= i64::MAX as u64 {
            return false;
        }
        let packets = feeds_for(records);
        self.told.allows(
            packets.as_slice(),
            at_ms as i64,
            data_in_flight_bytes as i64,
            Ghost(self@.exchanges),
        )
    }

    /// Counts one batch of acknowledgements, tells the controller of it and
    /// keeps its answers. Without a record nothing happens. A batch that the
    /// controller cannot be told is counted only.
    pub fn update(
        &mut self,
        records: &[AckArrival],
        now: Instant,
        data_in_flight_bytes: usize,
    ) -> (snap: BweSnapshot)
        requires
            old(self).wf(),
        ensures
            snap == final(self)@.snapshot(),
            records@.len() == 0 ==> final(self)@ == old(self)@,
            records@.len() > 0 && !can_update(old(self)@, records@, now, data_in_flight_bytes)
                ==> final(self)@ == old(self)@.counted(records@),
            records@.len() > 0 && can_update(old(self)@, records@, now, data_in_flight_bytes)
                ==> exists|first: UpdateView, second: UpdateView|
                final(self)@ == #[trigger] old(self)@.updated(
                    records@,
                    now,
                    data_in_flight_bytes,
                    first,
                    second,
                ),
            final(self)@.wf(),
            final(self).wf(),
    {
        if records.len() == 0 {
            return self.snapshot();
        }
        let can_tell: bool = self.can_tell(records, now, data_in_flight_bytes);
        let last = records[records.len() - 1];
        let delay_us: u64 = if last.client_arrival_us > last.server_emit_us {
            last.client_arrival_us - last.server_emit_us
        } else {
            0
        };
        self.samples_seen = self.samples_seen.saturating_add(records.len() as u64);
        self.observe_derived_rtt(Duration::from_micros(delay_us));
        assert(self@ =~= old(self)@.counted(records@));
        if !can_tell {
            return self.snapshot();
        }
        let ghost before = self@;
        let ghost log = self@.exchanges;
        let packets = feeds_for(records);
        let at_ms: i64 = self.feedback_time_ms(records, now) as i64;
        let ghost in_flight_bytes = data_in_flight_bytes as i64;
        assert(may_tell(log, packets@, at_ms as int, in_flight_bytes as int));
        let mut i: usize = 0;
        assert(log + all_sent(packets@.take(0)) =~= log);
        while i < packets.len()
            invariant
                i <= packets@.len(),
                forall|j: int| 0 <= j < packets@.len() ==> can_feed(#[trigger] packets@[j]),
                self.told.tallies(log),
                self@ == (DriverView {
                    exchanges: log + all_sent(packets@.take(i as int)),
                    ..before
                }),
            decreases packets@.len() - i,
        {
            note_sent(&mut self.ctl, &packets[i]);
            i = i + 1;
            assert(self@.exchanges =~= log + all_sent(packets@.take(i as int)));
        }
        assert(packets@.take(i as int) =~= packets@);
        let ghost told = log + all_sent(packets@);
        assert(told.take(told.len() - packets@.len()) =~= log);
        let first = plain_update(
            feed(&mut self.ctl, packets.as_slice(), at_ms, data_in_flight_bytes as i64),
        );
        let ghost fed = told.push(
            Exchange::Feedback { packets: packets@, at_ms, in_flight_bytes, answer: first@ },
        );
        assert(self@ =~= DriverView { exchanges: fed, ..before });
        let second = plain_update(process(&mut self.ctl, at_ms));
        let ghost done = fed.push(Exchange::Interval { at_ms, answer: second@ });
        assert(self@ =~= DriverView { exchanges: done, ..before });
        let ghost ends = seq![
            Exchange::Feedback { packets: packets@, at_ms, in_flight_bytes, answer: first@ },
            Exchange::Interval { at_ms, answer: second@ },
        ];
        assert(done =~= told + ends);
        self.told.note(packets.as_slice(), at_ms, Ghost(log), Ghost(ends));
        assert(self@ =~= DriverView { exchanges: done, ..before });
        self.absorb(&first);
        self.absorb(&second);
        proof {
            let after = old(self)@.updated(records@, now, data_in_flight_bytes, first@, second@);
            assert(after.exchanges =~= done);
            assert(self@ =~= after);
        }
        self.snapshot()
    }

    /// The present estimate.
    pub fn snapshot(&self) -> (snap: BweSnapshot)
        ensures
            snap == self@.snapshot(),
    {
        BweSnapshot {
            bitrate_bps: self.estimate_bps,
            samples_seen: self.samples_seen,
            implausible_rtt_samples: self.implausible_rtt_samples,
            pacer_rate_bps: self.pacer_rate_bps,
        }
    }

    /// Keeps what the controller answered.
    pub fn absorb(&mut self, update: &ControlUpdate)
        requires
            old(self).wf(),
        ensures
            final(self)@ == old(self)@.absorbed(update@),
            final(self)@.wf(),
            final(self).wf(),
    {
        if let Some(bps) = update.target_bps {
            if bps > 0 {
                self.estimate_bps = bps as u64;
            }
        }
        if let Some(window) = update.pacer {
            if let Some(bps) = rate_of_window(window) {
                self.pacer_rate_bps = Some(bps);
            }
        }
        let ghost held = self.pending_probe_requests@;
        let ghost asked = requests_for(update.probes@);
        let ghost rest = self@;
        let mut i: usize = 0;
        assert(held + asked.take(0) =~= held);
        while i < update.probes.len()
            invariant
                i <= update.probes@.len(),
                held.len() <= MAX_PENDING_PROBE_REQUESTS,
                asked == requests_for(update.probes@),
                self.told == old(self).told,
                self.pending_probe_requests@ == newest(held + asked.take(i as int)),
                self@ == (DriverView { pending: self.pending_probe_requests@, ..rest }),
            decreases update.probes@.len() - i,
        {
            let request = to_probe_request(&update.probes[i]);
            let ghost all = held + asked.take(i as int);
            if self.pending_probe_requests.len() == MAX_PENDING_PROBE_REQUESTS {
                self.pending_probe_requests.pop_front();
            }
            self.pending_probe_requests.push_back(request);
            i = i + 1;
            assert(asked[i - 1] == request);
            assert(held + asked.take(i as int) =~= all.push(request));
            assert(self.pending_probe_requests@ =~= newest(all.push(request)));
            assert(self@ =~= DriverView { pending: self.pending_probe_requests@, ..rest });
        }
        assert(asked.take(i as int) =~= asked);
        assert(self@ =~= old(self)@.absorbed(update@));
    }

    /// Hands out the oldest probe request that waits, once.
    pub fn take_probe_request(&mut self) -> (request: Option<ProbeRequest>)
        requires
            old(self).wf(),
        ensures
            request is Some <==> old(self)@.pending.len() > 0,
            request is Some ==> request->0 == old(self)@.pending[0] && final(self)@
                == (DriverView { pending: old(self)@.pending.skip(1), ..old(self)@ }),
            request is None ==> final(self)@ == old(self)@,
            final(self)@.wf(),
            final(self).wf(),
    {
        let request = self.pending_probe_requests.pop_front();
        assert(request is Some ==> self@.pending =~= old(self)@.pending.skip(1));
        request
    }

    /// When this batch's feedback counts as received.
    fn feedback_time_ms(&self, records: &[AckArrival], now: Instant) -> (ms: u128)
        ensures
            ms == feedback_ms(self@.base, records@, now),
    {
        let mut latest: u64 = 0;
        let mut i: usize = 0;
        assert(latest_send_ms(records@.take(0)) == 0);
        while i < records.len()
            invariant
                i <= records@.len(),
                latest == latest_send_ms(records@.take(i as int)),
            decreases records@.len() - i,
        {
            let ms: u64 = records[i].server_emit_us / 1_000;
            assert(records@.take(i + 1).drop_last() =~= records@.take(i as int));
            assert(records@.take(i + 1).last() == records@[i as int]);
            if ms > latest {
                latest = ms;
            }
            i = i + 1;
        }
        assert(records@.take(i as int) =~= records@);
        let elapsed: u128 = if now.nanos > self.base.nanos {
            (now.nanos - self.base.nanos) / 1_000_000
        } else {
            0
        };
        if latest as u128 > elapsed {
            latest as u128
        } else {
            elapsed
        }
    }
}

/// No more requests wait than are held at most, and none that waits is older
/// than one that was dropped.
pub proof fn newest_requests_wait(v: DriverView, u: UpdateView)
    requires
        v.wf(),
    ensures
        v.absorbed(u).wf(),
        exists|dropped: Seq<ProbeRequest>|
            v.pending + requests_for(u.probes) == #[trigger] (dropped + v.absorbed(u).pending),
{
    let all = v.pending + requests_for(u.probes);
    let kept = newest(all);
    let dropped = all.take(all.len() - kept.len());
    assert(all =~= dropped + kept);
}

/// An answer that proposes nothing changes nothing.
pub proof fn empty_answer_changes_nothing(v: DriverView)
    requires
        v.wf(),
    ensures
        v.absorbed(UpdateView { target_bps: None, pacer: None, probes: Seq::empty() }) == v,
{
    let u = UpdateView { target_bps: None, pacer: None, probes: Seq::empty() };
    assert(v.pending + requests_for(u.probes) =~= v.pending);
    assert(v.absorbed(u) =~= v);
}

/// Feedback never counts as received before a packet that it reports was
/// sent.
pub proof fn feedback_follows_every_send(
    base: Instant,
    records: Seq<AckArrival>,
    now: Instant,
    i: int,
)
    requires
        0 <= i < records.len(),
    ensures
        records[i].server_emit_us / 1_000 <= feedback_ms(base, records, now),
{
    latest_is_latest(records, i);
}

proof fn latest_is_latest(records: Seq<AckArrival>, i: int)
    requires
        0 <= i < records.len(),
    ensures
        records[i].server_emit_us / 1_000 <= latest_send_ms(records),
    decreases records.len(),
{
    if i < records.len() - 1 {
        latest_is_latest(records.drop_last(), i);
        assert(records.drop_last()[i] == records[i]);
    }
}

/// A batch that is told moves the controller's time on or leaves it, and
/// leaves the controller at rest.
pub proof fn time_never_runs_back(
    v: DriverView,
    records: Seq<AckArrival>,
    now: Instant,
    in_flight: usize,
    first: UpdateView,
    second: UpdateView,
)
    requires
        v.wf(),
        records.len() > 0,
        can_update(v, records, now, in_flight),
    ensures
        v.updated(records, now, in_flight, first, second).wf(),
        last_told_ms(v.exchanges) <= last_told_ms(
            v.updated(records, now, in_flight, first, second).exchanges,
        ),
{
    newest_requests_wait(v.counted(records), first);
    newest_requests_wait(v.counted(records).absorbed(first), second);
    let log = v.updated(records, now, in_flight, first, second).exchanges;
    assert(log.last() is Interval);
}

/// The receiver's clock has no part in when feedback counts as received.
pub proof fn arrival_clock_does_not_matter(
    base: Instant,
    a: Seq<AckArrival>,
    b: Seq<AckArrival>,
    now: Instant,
)
    requires
        a.len() == b.len(),
        forall|i: int| 0 <= i < a.len() ==> (#[trigger] a[i]).server_emit_us == b[i].server_emit_us,
    ensures
        feedback_ms(base, a, now) == feedback_ms(base, b, now),
{
    same_sends(a, b);
}

proof fn same_sends(a: Seq<AckArrival>, b: Seq<AckArrival>)
    requires
        a.len() == b.len(),
        forall|i: int| 0 <= i < a.len() ==> (#[trigger] a[i]).server_emit_us == b[i].server_emit_us,
    ensures
        latest_send_ms(a) == latest_send_ms(b),
    decreases a.len(),
{
    if a.len() > 0 {
        assert(a[a.len() - 1].server_emit_us == b[a.len() - 1].server_emit_us);
        assert forall|i: int| 0 <= i < a.len() - 1 implies (#[trigger] a.drop_last()[i]).server_emit_us
            == b.drop_last()[i].server_emit_us by {
            assert(a[i].server_emit_us == b[i].server_emit_us);
        }
        same_sends(a.drop_last(), b.drop_last());
    }
}

/// The controller hears of every send before it hears of the arrival.
pub proof fn sends_come_before_feedback(
    v: DriverView,
    records: Seq<AckArrival>,
    now: Instant,
    in_flight: usize,
    first: UpdateView,
    second: UpdateView,
    i: int,
)
    requires
        0 <= i < records.len(),
    ensures
        ({
            let told = v.updated(records, now, in_flight, first, second).exchanges;
            let feedback = v.exchanges.len() + records.len();
            &&& v.exchanges.len() <= v.exchanges.len() + i < feedback
            &&& told[v.exchanges.len() + i] == sent(feed_of(records[i]))
            &&& told[feedback as int] is Feedback
            &&& told[feedback as int]->packets[i] == feed_of(records[i])
        }),
{
}

/// Without a measured round trip nothing is flagged.
pub proof fn nothing_is_flagged_without_a_path(v: DriverView, derived: Duration)
    requires
        v.path_rtt is None,
    ensures
        v.observed(derived) == v,
{
}

} // verus!
