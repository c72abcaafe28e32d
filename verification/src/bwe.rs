//! Bandwidth estimation: acknowledgements in, an estimate out.
pub mod googcc;
pub mod guarantees;
pub mod timeline;
pub mod window;

use crate::bwe::googcc::{GoogCcDriver, ProbeRequest, FEED_LIMIT};
use crate::bwe::timeline::Lo16Timeline;
use crate::time::{Duration, Instant};
use vstd::prelude::*;

verus! {

broadcast use vstd::slice::group_slice_axioms;

/// Most samples that one estimator takes, so that its timeline keeps room.
pub const SAMPLES_LIMIT: u64 = 0x4000_0000_0000;

/// One acknowledged packet, with its arrival as it stands on the wire.
#[derive(Debug, Clone, Copy, PartialEq, Eq, Structural)]
pub struct AckArrival {
    /// Tells one packet from another.
    pub wire_seq: u32,
    /// When it was last sent, in microseconds of the sender's clock.
    pub server_emit_us: u64,
    /// Low 16 bits of when it arrived, in milliseconds of the receiver's
    /// clock.
    pub client_arrival_ms_lo16: u16,
    /// Bytes on the wire, over all fragments.
    pub size_bytes: u32,
}

/// What the estimator shows.
#[derive(Debug, Clone, Copy, PartialEq, Eq)]
pub struct BweSnapshot {
    /// Estimated bandwidth, in bits per second.
    pub bitrate_bps: u64,
    /// Acknowledged packets fed so far.
    pub samples_seen: u64,
    /// Batches whose derived delay no real link shows.
    pub implausible_rtt_samples: u64,
    /// Rate for the pacer, once there is one.
    pub pacer_rate_bps: Option<u64>,
}

/// Microseconds for an arrival in milliseconds, as far as the estimator takes
/// them.
pub open spec fn arrival_us(ms: int) -> u64 {
    if ms < FEED_LIMIT / 1_000 {
        (ms * 1_000) as u64
    } else {
        (FEED_LIMIT - 1) as u64
    }
}

/// Where the timeline stands after `records`.
pub open spec fn position_after(position: Option<i64>, records: Seq<AckArrival>) -> Option<i64>
    decreases records.len(),
{
    if records.len() == 0 {
        position
    } else {
        let before = position_after(position, records.drop_last());
        Some(
            timeline::next_position(
                before,
                records.last().client_arrival_ms_lo16 as int,
                timeline::PERIOD_16 as int,
            ) as i64,
        )
    }
}

/// The record behind the first `i` of `records`, with its arrival on the
/// timeline.
pub open spec fn placed(position: Option<i64>, records: Seq<AckArrival>, i: int)
    -> googcc::AckArrival {
    let r = records[i];
    googcc::AckArrival {
        wire_seq: r.wire_seq,
        server_emit_us: r.server_emit_us,
        client_arrival_us: arrival_us(
            timeline::floored(
                timeline::next_position(
                    position_after(position, records.take(i)),
                    r.client_arrival_ms_lo16 as int,
                    timeline::PERIOD_16 as int,
                ),
            ),
        ),
        size_bytes: r.size_bytes,
        probe: None,
    }
}

/// All of `records` on the timeline.
pub open spec fn all_placed(position: Option<i64>, records: Seq<AckArrival>) -> Seq<
    googcc::AckArrival,
> {
    Seq::new(records.len(), |i: int| placed(position, records, i))
}

/// A timeline that took `n` samples is no further than this from its origin.
pub open spec fn is_within(position: Option<i64>, n: int) -> bool {
    position matches Some(p) ==> -0x1_0000 * (n + 1) <= p <= 0x1_0000 * (n + 1)
}

/// Estimates bandwidth from acknowledgements.
pub struct BweWrapper {
    driver: GoogCcDriver,
    arrivals: Lo16Timeline,
}

impl BweWrapper {
    /// The rate to start from: enough for a first picture on ordinary
    /// broadband.
    pub const INITIAL_BPS: u64 = 2_000_000;

    /// The driver's state.
    pub closed spec fn driver(&self) -> googcc::DriverView {
        self.driver@
    }

    /// Where the arrivals' timeline stands.
    pub closed spec fn position(&self) -> Option<i64> {
        self.arrivals.position()
    }

    pub open spec fn wf(&self) -> bool {
        &&& self.is_driven()
        &&& self.driver().wf()
        &&& is_within(self.position(), self.driver().samples_seen as int)
    }

    /// The driver's invariant.
    pub closed spec fn is_driven(&self) -> bool {
        self.driver.wf()
    }

    /// There is something to feed, and the driver can be told of it.
    pub open spec fn can_take(
        &self,
        records: Seq<AckArrival>,
        now: Instant,
        in_flight: usize,
    ) -> bool {
        records.len() > 0 && googcc::can_update(
            self.driver(),
            all_placed(self.position(), records),
            now,
            in_flight,
        )
    }

    /// An estimator whose clock starts at `now`.
    pub fn new(initial_bps: u64, now: Instant) -> (bwe: Self)
        ensures
            bwe.driver() == googcc::DriverView::fresh(initial_bps, now),
            bwe.position() is None,
            bwe.wf(),
    {
        BweWrapper { driver: GoogCcDriver::new(initial_bps, now), arrivals: Lo16Timeline::default() }
    }

    /// Feeds a batch while nothing is known to be in flight.
    pub fn update(&mut self, records: &[AckArrival], now: Instant) -> (snap: BweSnapshot)
        requires
            old(self).wf(),
            old(self).driver().samples_seen + records@.len() <= SAMPLES_LIMIT,
        ensures
            snap == final(self).driver().snapshot(),
            final(self).position() == position_after(old(self).position(), records@),
            records@.len() == 0 ==> final(self).driver() == old(self).driver(),
            records@.len() > 0 && !old(self).can_take(records@, now, 0) ==> final(self).driver()
                == old(self).driver().counted(all_placed(old(self).position(), records@)),
            old(self).can_take(records@, now, 0) ==> exists|first: googcc::UpdateView, second: googcc::UpdateView|
                final(self).driver() == #[trigger] old(self).driver().updated(
                    all_placed(old(self).position(), records@),
                    now,
                    0,
                    first,
                    second,
                ),
            final(self).wf(),
    {
        self.update_in_flight(records, now, 0)
    }

    /// Feeds a batch while so many bytes are in flight. One that the
    /// controller cannot be told is counted only.
    pub fn update_in_flight(
        &mut self,
        records: &[AckArrival],
        now: Instant,
        data_in_flight_bytes: usize,
    ) -> (snap: BweSnapshot)
        requires
            old(self).wf(),
            old(self).driver().samples_seen + records@.len() <= SAMPLES_LIMIT,
        ensures
            snap == final(self).driver().snapshot(),
            final(self).position() == position_after(old(self).position(), records@),
            records@.len() == 0 ==> final(self).driver() == old(self).driver(),
            records@.len() > 0 && !old(self).can_take(records@, now, data_in_flight_bytes)
                ==> final(self).driver() == old(self).driver().counted(
                all_placed(old(self).position(), records@),
            ),
            old(self).can_take(records@, now, data_in_flight_bytes) ==> exists|first: googcc::UpdateView, second: googcc::UpdateView|
                final(self).driver() == #[trigger] old(self).driver().updated(
                    all_placed(old(self).position(), records@),
                    now,
                    data_in_flight_bytes,
                    first,
                    second,
                ),
            final(self).wf(),
    {
        let ghost start = self.position();
        let ghost seen = self.driver().samples_seen as int;
        let mut batch: Vec<googcc::AckArrival> = Vec::new();
        let mut i: usize = 0;
        assert(records@.take(0) =~= Seq::empty());
        while i < records.len()
            invariant
                i <= records@.len(),
                0 <= seen && seen + records@.len() <= SAMPLES_LIMIT,
                self.driver == old(self).driver,
                self.arrivals.position() == position_after(start, records@.take(i as int)),
                is_within(self.arrivals.position(), seen + i),
                batch@ == Seq::new(i as nat, |j: int| placed(start, records@, j)),
            decreases records@.len() - i,
        {
            let r = records[i];
            proof {
                if let Some(p) = self.arrivals.position() {
                    timeline::nearest_is_near(
                        p as int,
                        r.client_arrival_ms_lo16 as int,
                        timeline::PERIOD_16 as int,
                    );
                }
                assert(records@.take(i + 1).drop_last() =~= records@.take(i as int));
                assert(records@.take(i + 1).last() == r);
            }
            let ms: u64 = self.arrivals.unwrap_ms(r.client_arrival_ms_lo16);
            let us: u64 = if ms < FEED_LIMIT / 1_000 {
                ms * 1_000
            } else {
                FEED_LIMIT - 1
            };
            batch.push(
                googcc::AckArrival {
                    wire_seq: r.wire_seq,
                    server_emit_us: r.server_emit_us,
                    client_arrival_us: us,
                    size_bytes: r.size_bytes,
                    probe: None,
                },
            );
            i = i + 1;
            assert(batch@ =~= Seq::new(i as nat, |j: int| placed(start, records@, j)));
        }
        assert(records@.take(i as int) =~= records@);
        assert(batch@ =~= all_placed(start, records@));
        let ghost before = self.driver();
        let snap = self.driver.update(batch.as_slice(), now, data_in_flight_bytes);
        proof {
            if old(self).can_take(records@, now, data_in_flight_bytes) {
                let (first, second) = choose|first: googcc::UpdateView, second: googcc::UpdateView|
                    self.driver@ == #[trigger] before.updated(
                        batch@,
                        now,
                        data_in_flight_bytes,
                        first,
                        second,
                    );
                assert(self.driver() == before.updated(
                    batch@,
                    now,
                    data_in_flight_bytes,
                    first,
                    second,
                ));
            }
        }
        snap
    }

    /// Records the measured round trip of the path.
    pub fn note_path_rtt(&mut self, rtt: Duration)
        requires
            old(self).wf(),
        ensures
            final(self).driver() == (googcc::DriverView {
                path_rtt: Some(rtt),
                ..old(self).driver()
            }),
            final(self).position() == old(self).position(),
            final(self).wf(),
    {
        self.driver.note_path_rtt(rtt);
    }

    /// Hands out the oldest probe request that waits, once.
    pub fn take_probe_request(&mut self) -> (request: Option<ProbeRequest>)
        requires
            old(self).wf(),
        ensures
            request is Some <==> old(self).driver().pending.len() > 0,
            request is Some ==> request->0 == old(self).driver().pending[0] && final(self).driver()
                == (googcc::DriverView {
                pending: old(self).driver().pending.skip(1),
                ..old(self).driver()
            }),
            request is None ==> final(self).driver() == old(self).driver(),
            final(self).position() == old(self).position(),
            final(self).wf(),
    {
        self.driver.take_probe_request()
    }

    /// The present estimate.
    pub fn snapshot(&self) -> (snap: BweSnapshot)
        ensures
            snap == self.driver().snapshot(),
    {
        self.driver.snapshot()
    }
}

} // verus!
