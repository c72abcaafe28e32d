use ghostframe_transport::bwe::window::{Observation, RateWindow};
use ghostframe_transport::bwe::{AckArrival, BweWrapper};
use ghostframe_transport::time::{Duration, Instant};
use goog_cc::network_control::NetworkControllerConfig;
use goog_cc::transport::TargetRateConstraints;
use goog_cc::units::{DataRate, Timestamp};
use goog_cc::{GoogCcConfig, GoogCcNetworkController};

fn clock_start() -> Instant {
    Instant::from_nanos(1_000_000_000_000)
}

#[test]
fn mod_snapshot_starts_near_initial_bps() {
    let bwe = BweWrapper::new(BweWrapper::INITIAL_BPS, clock_start());
    let snap = bwe.snapshot();
    assert!(
        snap.bitrate_bps >= BweWrapper::INITIAL_BPS / 2
            && snap.bitrate_bps <= BweWrapper::INITIAL_BPS * 2,
        "initial estimate {} not within 2× of seed {}",
        snap.bitrate_bps,
        BweWrapper::INITIAL_BPS,
    );
    assert_eq!(snap.samples_seen, 0);
}

#[test]
fn mod_update_counts_records_seen() {
    let mut bwe = BweWrapper::new(BweWrapper::INITIAL_BPS, clock_start());
    let records = vec![
        AckArrival {
            wire_seq: 1,
            server_emit_us: 100,
            client_arrival_ms_lo16: 110,
            size_bytes: 1200,
        },
        AckArrival {
            wire_seq: 2,
            server_emit_us: 120,
            client_arrival_ms_lo16: 135,
            size_bytes: 1200,
        },
    ];
    let snap = bwe.update(&records, clock_start());
    assert_eq!(snap.samples_seen, 2);
}

#[test]
fn googcc_constructs_standalone() {
    let t0 = Timestamp::from_millis(1_000);
    let cfg = NetworkControllerConfig {
        constraints: TargetRateConstraints {
            at_time: t0,
            min_data_rate: Some(DataRate::from_kilobits_per_sec(100)),
            max_data_rate: Some(DataRate::from_kilobits_per_sec(50_000)),
            starting_rate: Some(DataRate::from_kilobits_per_sec(1_000)),
        },
        ..Default::default()
    };
    let _ctl = GoogCcNetworkController::new(
        cfg,
        GoogCcConfig {
            feedback_only: false,
        },
    );
}

#[test]
fn ack_arrival_carries_packet_size() {
    let a = AckArrival {
        wire_seq: 1,
        server_emit_us: 10,
        client_arrival_ms_lo16: 25,
        size_bytes: 1200,
    };
    assert_eq!(a.size_bytes, 1200);
}

#[test]
fn ack_arrival_emit_time_is_monotonic_micros() {
    let a = AckArrival {
        wire_seq: 1,
        server_emit_us: 5_000_000,
        client_arrival_ms_lo16: 25,
        size_bytes: 1200,
    };
    assert_eq!(a.server_emit_us, 5_000_000);
}

#[test]
fn wrapper_backs_off_on_rising_delay() {
    let t0 = clock_start();
    let mut w = BweWrapper::new(4_000_000, t0);

    let mut last = w.snapshot().bitrate_bps;
    for step in 0..400u32 {
        let batch: Vec<AckArrival> = (0..12u32)
            .map(|i| {
                let emit_us = ((step * 20 + i) as u64) * 1_000;
                let arrival_ms = emit_us / 1_000 + 15 + (step as u64) * 10;
                AckArrival {
                    wire_seq: step * 12 + i,
                    server_emit_us: emit_us,
                    client_arrival_ms_lo16: (arrival_ms & 0xFFFF) as u16,
                    size_bytes: 1200,
                }
            })
            .collect();
        last = w
            .update(
                &batch,
                t0.plus(Duration::from_millis(20 * step as u64)),
            )
            .bitrate_bps;
    }

    assert!(
        last < 4_000_000,
        "estimate {last} never fell despite steadily rising one-way delay"
    );
}

#[test]
fn wrapper_rises_on_a_clean_link() {
    let t0 = clock_start();
    let mut w = BweWrapper::new(4_000_000, t0);

    let mut last = w.snapshot().bitrate_bps;
    for step in 0..400u32 {
        let batch: Vec<AckArrival> = (0..12u32)
            .map(|i| {
                let emit_us = ((step * 20 + i) as u64) * 1_000;
                let arrival_ms = emit_us / 1_000 + 15;
                AckArrival {
                    wire_seq: step * 12 + i,
                    server_emit_us: emit_us,
                    client_arrival_ms_lo16: (arrival_ms & 0xFFFF) as u16,
                    size_bytes: 1200,
                }
            })
            .collect();
        last = w
            .update(
                &batch,
                t0.plus(Duration::from_millis(20 * step as u64)),
            )
            .bitrate_bps;
    }

    assert!(
        last > 4_000_000,
        "estimate {last} did not rise on a clean link with constant delay"
    );
}

#[test]
fn an_empty_batch_changes_nothing() {
    let mut bwe = BweWrapper::new(3_000_000, clock_start());
    let before = bwe.snapshot();
    assert_eq!(bwe.update(&[], clock_start()), before);
    assert_eq!(bwe.snapshot(), before);
    assert_eq!(bwe.take_probe_request(), None);
}

#[test]
fn arrivals_carry_across_the_wrap_of_their_clock() {
    let t0 = clock_start();
    let mut w = BweWrapper::new(4_000_000, t0);
    w.note_path_rtt(Duration::from_millis(20));
    for step in 0..100u64 {
        let emit_us = step * 20_000;
        let arrival_ms = 65_000 + step * 20;
        w.update_in_flight(
            &[AckArrival {
                wire_seq: step as u32,
                server_emit_us: emit_us,
                client_arrival_ms_lo16: (arrival_ms % 65_536) as u16,
                size_bytes: 1200,
            }],
            t0.plus(Duration::from_millis(20 * step)),
            1200,
        );
    }
    let snap = w.snapshot();
    assert_eq!(snap.samples_seen, 100);
    assert_eq!(
        snap.implausible_rtt_samples, 100,
        "each delay of more than a minute counts, also past the wrap"
    );
}

#[test]
fn bwe_update_counts_records_seen() {
    let mut window = RateWindow::new(clock_start());
    assert_eq!(window.add(2, clock_start()), None);
    assert_eq!(window.samples_seen, 2);
}

#[test]
fn a_window_gives_its_count_once_it_is_over() {
    let t0 = clock_start();
    let mut window = RateWindow::new(t0);
    assert_eq!(window.add(100, t0.plus(Duration::from_millis(199))), None);
    assert_eq!(window.add(0, t0.plus(Duration::from_millis(300))), None);
    let late = t0.plus(Duration::from_millis(201));
    assert_eq!(
        window.add(100, late),
        Some(Observation {
            count: 200,
            elapsed: Duration::from_millis(201),
        })
    );
    assert_eq!((window.start, window.count, window.samples_seen), (late, 0, 200));

    let mut few = RateWindow::new(t0);
    assert_eq!(few.add(2, late), None, "too few for an estimate");
    assert_eq!(few.samples_seen, 2);
}
