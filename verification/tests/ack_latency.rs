use ghostframe_transport::ack_latency::{AckLatencyTracker, MIN_SAMPLES, WINDOW};
use ghostframe_transport::time::Duration;

#[test]
fn empty_tracker_reports_zero() {
    let t = AckLatencyTracker::new();
    assert_eq!(t.p95(), Duration::zero());
    assert_eq!(t.len(), 0);
    assert!(t.is_empty());
}

#[test]
fn a_single_sample_is_not_yet_a_measurement() {
    let mut t = AckLatencyTracker::new();
    t.record(12_345);
    assert_eq!(
        t.p95(),
        Duration::zero(),
        "one sample is not a distribution; reporting it would let a single \
         fast acknowledgement set the deadline for everything behind it"
    );
    assert_eq!(t.len(), 1, "but it is still retained");
}

#[test]
fn p95_becomes_a_measurement_exactly_at_min_samples() {
    let mut t = AckLatencyTracker::new();
    for _ in 0..MIN_SAMPLES - 1 {
        t.record(40_000);
    }
    assert_eq!(
        t.p95(),
        Duration::zero(),
        "one sample short of the threshold is still no measurement"
    );
    t.record(40_000);
    assert_eq!(t.p95(), Duration::from_micros(40_000));
}

#[test]
fn p95_of_100_samples_is_the_95th_smallest() {
    let mut t = AckLatencyTracker::new();
    for _ in 0..94 {
        t.record(50_000);
    }
    for _ in 0..6 {
        t.record(80_000);
    }
    assert_eq!(t.p95(), Duration::from_millis(80));
}

#[test]
fn window_evicts_oldest_samples() {
    let mut t = AckLatencyTracker::new();
    for _ in 0..WINDOW {
        t.record(500_000);
    }
    assert_eq!(t.p95(), Duration::from_micros(500_000));
    for _ in 0..WINDOW {
        t.record(1_000);
    }
    assert_eq!(t.len(), WINDOW);
    assert_eq!(t.p95(), Duration::from_micros(1_000));
}

#[test]
fn partial_window_uses_only_recorded_samples() {
    let mut t = AckLatencyTracker::new();
    for _ in 0..MIN_SAMPLES {
        t.record(10_000);
    }
    t.record(20_000);
    t.record(30_000);
    t.record(40_000);
    let n = MIN_SAMPLES + 3;
    assert_eq!(t.len(), n, "a partial window must not be padded to WINDOW");
    let expected = {
        let mut v: Vec<u64> = vec![10_000; MIN_SAMPLES];
        v.extend([20_000, 30_000, 40_000]);
        v.sort_unstable();
        let rank = (95 * n as u64).div_ceil(100) as usize;
        v[rank.saturating_sub(1).min(n - 1)]
    };
    assert_eq!(t.p95(), Duration::from_micros(expected));
}

#[test]
fn p95_is_order_independent() {
    let mut a = AckLatencyTracker::new();
    let mut b = AckLatencyTracker::new();
    let vals_a = [10_000u64, 90_000, 20_000, 80_000, 30_000];
    let vals_b = [80_000u64, 30_000, 10_000, 90_000, 20_000];
    for v in vals_a {
        a.record(v);
    }
    for v in vals_b {
        b.record(v);
    }
    assert_eq!(a.p95(), b.p95());
}
