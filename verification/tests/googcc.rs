use ghostframe_transport::bwe::googcc::{
    feeds_for, pacing_info_for, starting_rate, to_probe_request, AckArrival, ControlUpdate,
    GoogCcDriver, PacerWindow, ProbeConfig, ProbeRequest, MAX_BPS, MIN_BPS,
};
use ghostframe_transport::reliable_emitter::cache::ProbeTag;
use ghostframe_transport::time::{Duration, Instant};
use goog_cc::transport::PacedPacketInfo;

fn clock_start() -> Instant {
    Instant::from_nanos(1_000_000_000_000)
}

#[test]
fn steady_delivery_moves_the_estimate() {
    let t0 = clock_start();
    let mut d = GoogCcDriver::new(1_000_000, t0);

    for step in 0..400u32 {
        let batch: Vec<AckArrival> = (0..12u32)
            .map(|i| {
                let emit_us = ((step * 20 + i) as u64) * 1_000;
                AckArrival {
                    wire_seq: step * 12 + i,
                    server_emit_us: emit_us,
                    client_arrival_us: emit_us + 15_000,
                    size_bytes: 1200,
                    probe: None,
                }
            })
            .collect();
        d.update(
            &batch,
            t0.plus(Duration::from_millis(20 * step as u64)),
            batch.iter().map(|r| r.size_bytes as usize).sum(),
        );
    }

    let snap = d.snapshot();
    assert_eq!(snap.samples_seen, 400 * 12);
    assert!(
        snap.bitrate_bps > 0,
        "controller produced no estimate after 400 batches"
    );
    assert_ne!(
        snap.bitrate_bps, 1_000_000,
        "estimate never moved off the starting rate — the controller's \
         updates are not being absorbed"
    );
}

#[test]
fn an_independently_epoched_client_clock_does_not_panic() {
    for offset_us in [0u64, 3_000_000, 10_000_000, 40_000_000] {
        let t0 = clock_start();
        let mut d = GoogCcDriver::new(4_000_000, t0);
        for step in 0..400u32 {
            let batch: Vec<AckArrival> = (0..12u32)
                .map(|i| {
                    let emit_us = ((step * 20 + i) as u64) * 1_000;
                    let arrival_us = emit_us + 15_000 + offset_us;
                    AckArrival {
                        wire_seq: step * 12 + i,
                        server_emit_us: emit_us,
                        client_arrival_us: arrival_us,
                        size_bytes: 1200,
                        probe: None,
                    }
                })
                .collect();
            d.update(
                &batch,
                t0.plus(Duration::from_millis(20 * step as u64)),
                batch.iter().map(|r| r.size_bytes as usize).sum(),
            );
        }
        let bps = d.snapshot().bitrate_bps;
        assert!(bps > 0, "offset {offset_us} us produced no estimate");
    }
}

#[test]
fn an_implausible_derived_rtt_is_counted() {
    let t0 = clock_start();
    let mut d = GoogCcDriver::new(4_000_000, t0);
    d.note_path_rtt(Duration::from_millis(20));
    d.observe_derived_rtt(Duration::from_secs(30));
    assert_eq!(d.snapshot().implausible_rtt_samples, 1);

    d.observe_derived_rtt(Duration::from_millis(25));
    assert_eq!(d.snapshot().implausible_rtt_samples, 1);
}

#[test]
fn no_path_rtt_means_nothing_is_flagged() {
    let t0 = clock_start();
    let mut d = GoogCcDriver::new(4_000_000, t0);
    d.observe_derived_rtt(Duration::from_secs(30));
    assert_eq!(d.snapshot().implausible_rtt_samples, 0);
}

#[test]
fn pacer_rate_appears_only_after_feedback() {
    let t0 = clock_start();
    let mut d = GoogCcDriver::new(1_000_000, t0);
    assert_eq!(
        d.snapshot().pacer_rate_bps,
        None,
        "pacer rate must be None before any feedback is absorbed"
    );

    let batch: Vec<AckArrival> = (0..12u32)
        .map(|i| {
            let emit_us = (i as u64) * 1_000;
            AckArrival {
                wire_seq: i,
                server_emit_us: emit_us,
                client_arrival_us: emit_us + 15_000,
                size_bytes: 1200,
                probe: None,
            }
        })
        .collect();
    d.update(
        &batch,
        t0.plus(Duration::from_millis(20)),
        batch.iter().map(|r| r.size_bytes as usize).sum(),
    );

    let pacer_bps = d
        .snapshot()
        .pacer_rate_bps
        .expect("pacer_config was not absorbed after a feedback batch");
    assert!(
        pacer_bps > 0,
        "pacer rate derived from PacerConfig::data_rate() must be positive"
    );
}

#[test]
fn untagged_pass_keeps_not_a_probe() {
    let info = pacing_info_for(None);
    assert_eq!(info.probe_cluster_id, PacedPacketInfo::NOT_APROBE);
}

#[test]
fn tagged_pass_carries_its_probe_identity_into_paced_packet_info() {
    let tag = ProbeTag {
        id: 7,
        min_probes: 4,
        min_bytes: 12_000,
        bytes_sent_before: 3_500,
    };
    let info = pacing_info_for(Some(tag));
    assert_ne!(
        info.probe_cluster_id,
        PacedPacketInfo::NOT_APROBE,
        "a tagged pass must not be indistinguishable from ordinary traffic"
    );
    assert_eq!(info.probe_cluster_id, 7);
    assert_eq!(info.probe_cluster_min_probes, 4);
    assert_eq!(info.probe_cluster_min_bytes, 12_000);
    assert_eq!(info.probe_cluster_bytes_sent, 3_500);
}

#[test]
fn a_probe_tagged_ack_arrival_reaches_the_controller_without_tripping_its_invariants() {
    let t0 = clock_start();
    let mut d = GoogCcDriver::new(4_000_000, t0);
    let tag = ProbeTag {
        id: 3,
        min_probes: 2,
        min_bytes: 1_000,
        bytes_sent_before: 0,
    };
    let records = vec![AckArrival {
        wire_seq: 1,
        server_emit_us: 0,
        client_arrival_us: 15_000,
        size_bytes: 1200,
        probe: Some(tag),
    }];
    let snap = d.update(
        &records,
        t0.plus(Duration::from_millis(20)),
        records.iter().map(|r| r.size_bytes as usize).sum(),
    );
    assert_eq!(snap.samples_seen, 1);
}

fn quiet() -> ControlUpdate {
    ControlUpdate {
        target_bps: None,
        pacer: None,
        probes: vec![],
    }
}

fn probe(id: i32) -> ProbeConfig {
    ProbeConfig {
        id,
        target_bps: 6_000_000,
        duration_us: 15_000,
        probe_count: 5,
    }
}

#[test]
fn a_ladder_of_probes_is_handed_out_lowest_rung_first() {
    {
        let mut d = GoogCcDriver::new(4_000_000, clock_start());
        d.absorb(&ControlUpdate {
            probes: vec![probe(1), probe(2)],
            ..quiet()
        });
        assert_eq!(d.take_probe_request().unwrap().id, 1);
        assert_eq!(d.take_probe_request().unwrap().id, 2);
        assert_eq!(d.take_probe_request(), None);
    }

    {
        let mut d = GoogCcDriver::new(4_000_000, clock_start());
        d.absorb(&ControlUpdate {
            probes: (1..=6).map(probe).collect(),
            ..quiet()
        });
        let ids: Vec<i32> = (0..4).map(|_| d.take_probe_request().unwrap().id).collect();
        assert_eq!(ids, vec![3, 4, 5, 6]);
        assert_eq!(d.take_probe_request(), None);
    }
}

#[test]
fn answers_become_rates_and_requests() {
    {
        let mut d = GoogCcDriver::new(4_000_000, clock_start());
        d.absorb(&ControlUpdate {
            target_bps: Some(0),
            ..quiet()
        });
        assert_eq!(d.snapshot().bitrate_bps, 4_000_000);
        d.absorb(&ControlUpdate {
            target_bps: Some(5_000_000),
            ..quiet()
        });
        assert_eq!(d.snapshot().bitrate_bps, 5_000_000);
    }

    {
        let mut d = GoogCcDriver::new(4_000_000, clock_start());
        for unset in [(0, 1_000_000), (125_000, 0), (125_000, -1)] {
            d.absorb(&ControlUpdate {
                pacer: Some(PacerWindow {
                    data_bytes: unset.0,
                    time_us: unset.1,
                }),
                ..quiet()
            });
            assert_eq!(d.snapshot().pacer_rate_bps, None);
        }
        d.absorb(&ControlUpdate {
            pacer: Some(PacerWindow {
                data_bytes: 125_000,
                time_us: 1_000_000,
            }),
            ..quiet()
        });
        assert_eq!(d.snapshot().pacer_rate_bps, Some(1_000_000));
    }

    {
        assert_eq!(
            to_probe_request(&probe(9)),
            ProbeRequest {
                id: 9,
                target_rate_bps: 6_000_000,
                duration: Duration::from_micros(15_000),
                min_probes: 5,
                min_bytes: 11_250,
            }
        );
        let negative = ProbeConfig {
            id: 1,
            target_bps: -1,
            duration_us: -1,
            probe_count: -1,
        };
        assert_eq!(to_probe_request(&negative).min_bytes, 0);
        assert_eq!(to_probe_request(&negative).min_probes, 0);
        let huge = ProbeConfig {
            id: 1,
            target_bps: i64::MAX,
            duration_us: i64::MAX,
            probe_count: 1,
        };
        assert_eq!(to_probe_request(&huge).min_bytes, i64::MAX);
    }

    {
        assert_eq!(starting_rate(0), MIN_BPS);
        assert_eq!(starting_rate(200_000), 200_000);
        assert_eq!(starting_rate(4_000_000), 4_000_000);
        assert_eq!(starting_rate(300_000_000), MAX_BPS);
        assert_eq!(starting_rate(u64::MAX), MIN_BPS);
    }
}

#[test]
fn the_controller_asks_for_probes_once_it_has_feedback() {
    let t0 = clock_start();
    let mut d = GoogCcDriver::new(2_000_000, t0);
    let record = AckArrival {
        wire_seq: 1,
        server_emit_us: 1_000,
        client_arrival_us: 16_000,
        size_bytes: 1200,
        probe: None,
    };
    d.update(&[record], t0.plus(Duration::from_millis(20)), 1200);
    let first = d.take_probe_request().expect("a first probe");
    assert!(first.target_rate_bps > 2_000_000);
    assert!(first.min_bytes > 0);
}

#[test]
fn packets_are_told_in_full_precision() {
    let record = AckArrival {
        wire_seq: 1,
        server_emit_us: 1_234,
        client_arrival_us: 5_678,
        size_bytes: 1200,
        probe: None,
    };
    let fed = feeds_for(&[record]);
    assert_eq!(fed.len(), 1);
    assert_eq!(fed[0].send_us, 1_234);
    assert_eq!(fed[0].receive_us, 5_678);
    assert_eq!(fed[0].size_bytes, 1200);
    assert_eq!(fed[0].pacing, pacing_info_for(None));
}

fn batch(first: u32, n: u32, send_us: u64, size_bytes: u32) -> Vec<AckArrival> {
    (0..n)
        .map(|i| AckArrival {
            wire_seq: first + i,
            server_emit_us: send_us + 1_000 * i as u64,
            client_arrival_us: send_us + 1_000 * i as u64 + 15_000,
            size_bytes,
            probe: None,
        })
        .collect()
}

fn slowing(n: u32) -> Vec<AckArrival> {
    batch(0, n, 0, 1200)
        .into_iter()
        .enumerate()
        .map(|(i, r)| AckArrival {
            server_emit_us: 6_000 * i as u64,
            client_arrival_us: 15_000 + 12_000 * i as u64,
            ..r
        })
        .collect()
}

fn tagged(records: &[AckArrival], id: i32, min_bytes: i64) -> Vec<AckArrival> {
    let tag = ProbeTag {
        id,
        min_probes: 2,
        min_bytes,
        bytes_sent_before: 0,
    };
    records
        .iter()
        .map(|r| AckArrival {
            probe: Some(tag),
            ..*r
        })
        .collect()
}

#[test]
fn a_batch_that_cannot_be_told_is_counted_only() {
    let t0 = clock_start();
    let at = |ms: u64| t0.plus(Duration::from_millis(ms));
    let first = |records: &[AckArrival], now: Instant, told: bool| {
        let mut d = GoogCcDriver::new(4_000_000, t0);
        d.note_path_rtt(Duration::from_millis(20));
        assert_eq!(d.can_tell(records, now, 0), told);
        let snap = d.update(records, now, 0);
        assert_eq!(snap.samples_seen, records.len() as u64);
        assert_eq!(snap.pacer_rate_bps.is_some(), told);
        assert_eq!(d.take_probe_request().is_some(), told);
        d
    };
    let one = batch(0, 1, 0, 1200);
    first(&batch(0, 10, 6_901_000_000, 1200), at(6_901_000), false);
    first(&batch(0, 10, 6_899_000_000, 1200), at(6_900_000), true);
    first(&batch(0, 10, 0, 1200), at(3_009), false);
    first(&batch(0, 10, 0, 1200), at(3_008), true);
    first(&batch(0, 9, 0, 1200), at(4_000), true);
    first(&one, at(9_200_001), false);
    first(&one, at(9_200_000), true);
    first(&batch(0, 10, 0, 46_000_000), at(20), false);
    first(&batch(0, 10, 0, 45_999_999), at(20), true);
    first(&batch(0, 1, 0, 0x10_0000), at(20), true);
    first(&slowing(40), at(520), false);
    first(&slowing(22), at(300), true);
    first(&batch(0, 200, 0, 1200), at(220), true);
    first(&batch(0, 3, u64::MAX - 10_000, 1200), at(20), false);
    first(&tagged(&one, 3, 0), at(20), false);
    first(&tagged(&one, 3, i64::MAX), at(20), false);
    first(&tagged(&one, 3, i64::MAX - 1), at(20), true);

    let far = AckArrival {
        client_arrival_us: 30_000_000,
        ..one[0]
    };
    let d = first(&tagged(&[far], 3, i64::MAX), at(20), false);
    assert_eq!(d.snapshot().implausible_rtt_samples, 1);

    let mut d = first(&batch(0, 9, 0, 1200), at(4_000), true);
    let back = batch(9, 10, 10_000, 1200);
    assert!(!d.can_tell(&back, at(3_999), 0), "time does not run backwards");
    assert_eq!(d.update(&back, at(3_999), 0).samples_seen, 19);
    assert!(d.can_tell(&back, at(4_000), 0));
    assert!(d.can_tell(&back, at(46_000_010), 0));
    assert!(!d.can_tell(&back, at(46_000_011), 0));
    assert!(!d.can_tell(&back, at(4_000), i64::MAX as usize));
    assert!(d.can_tell(&slowing(40), at(4_000), 0));
    d.update(&slowing(40), at(4_000), 0);

    let probes = batch(209, 35, 4_000_000, 1_000_000);
    assert!(!d.can_tell(&tagged(&probes, 3, 1_000), at(4_050), 0));
    let two: Vec<AckArrival> = [
        tagged(&probes[..17], 3, 1_000),
        tagged(&probes[17..], 4, 1_000),
    ]
    .concat();
    assert!(d.can_tell(&two, at(4_050), 0));
    assert_eq!(d.update(&two, at(4_050), 0).samples_seen, 94);
    let more = tagged(&probes[..18], 3, 1_000);
    assert!(!d.can_tell(&more, at(4_051), 0));
    assert!(d.can_tell(&more[..17], at(4_051), 0));
    assert!(d.can_tell(&probes, at(4_051), 0));

    for step in 0..400u32 {
        let now = 5_000_000 + 1_000_000 * step as u64;
        let big = batch(300, 100, now, 45_999_999);
        assert!(d.can_tell(&big, at(now / 1_000 + 120), 1 << 40));
        d.update(&big, at(now / 1_000 + 120), 1 << 40);
    }
}

