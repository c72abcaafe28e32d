use ghostframe_transport::ack_latency::{AckLatencyTracker, MIN_SAMPLES};
use ghostframe_transport::reliable_emitter::rto::{
    rto_for_attempt, RtoTimerWheel, ACK_DEADLINE_CEILING_NANOS, ACK_DEADLINE_COLD_START_NANOS,
    ACK_DEADLINE_FLOOR_NANOS,
};
use ghostframe_transport::reliable_emitter::EmitKey;
use ghostframe_transport::time::{Duration, Instant};

const ACK_DEADLINE_FLOOR: Duration = Duration {
    nanos: ACK_DEADLINE_FLOOR_NANOS,
};
const ACK_DEADLINE_COLD_START: Duration = Duration {
    nanos: ACK_DEADLINE_COLD_START_NANOS,
};
const ACK_DEADLINE_CEILING: Duration = Duration {
    nanos: ACK_DEADLINE_CEILING_NANOS,
};

fn clock_start() -> Instant {
    Instant::from_nanos(1_000_000_000_000)
}

#[test]
fn rto_first_attempt_floors_at_150ms() {
    let r = rto_for_attempt(Some(Duration::from_millis(1)), 0);
    assert_eq!(r, ACK_DEADLINE_FLOOR);
}

#[test]
fn no_measurement_yet_gets_the_pessimistic_cold_start_deadline() {
    let r = rto_for_attempt(None, 0);
    assert_eq!(r, ACK_DEADLINE_COLD_START);
    assert!(
        ACK_DEADLINE_COLD_START > ACK_DEADLINE_FLOOR,
        "an unmeasured path must be assumed slower than a measured fast one"
    );
}

#[test]
fn rto_first_attempt_ceiling_caps_pathological_measurement() {
    let r = rto_for_attempt(Some(Duration::from_secs(5)), 0);
    assert_eq!(r, ACK_DEADLINE_CEILING);
}

#[test]
fn rto_backoff_doubles_per_attempt() {
    let r0 = rto_for_attempt(Some(Duration::from_millis(100)), 0);
    let r1 = rto_for_attempt(Some(Duration::from_millis(100)), 1);
    let r2 = rto_for_attempt(Some(Duration::from_millis(100)), 2);
    let r3 = rto_for_attempt(Some(Duration::from_millis(100)), 3);
    assert_eq!(r0, Duration::from_millis(200));
    assert_eq!(r1, Duration::from_millis(400));
    assert_eq!(r2, Duration::from_millis(800));
    assert_eq!(r3, Duration::from_millis(1600));
}

#[test]
fn rto_backoff_caps_at_5_seconds() {
    let r4 = rto_for_attempt(Some(Duration::from_millis(100)), 4);
    assert_eq!(r4, Duration::from_millis(3200));
    let r5 = rto_for_attempt(Some(Duration::from_millis(100)), 5);
    assert_eq!(r5, Duration::from_secs(5));
    let r99 = rto_for_attempt(Some(Duration::from_millis(100)), 99);
    assert_eq!(r99, Duration::from_secs(5));
}

#[test]
fn ack_deadline_tracks_measured_p95() {
    let mut t = AckLatencyTracker::new();
    for _ in 0..94 {
        t.record(50_000);
    }
    for _ in 0..6 {
        t.record(80_000);
    }
    assert_eq!(t.measured_p95(), Some(Duration::from_millis(80)));
    let deadline = rto_for_attempt(t.measured_p95(), 0);
    assert_eq!(deadline, Duration::from_millis(160));
}

#[test]
fn ack_deadline_floors_when_measurement_is_tiny() {
    let mut t = AckLatencyTracker::new();
    for _ in 0..MIN_SAMPLES {
        t.record(1_000);
    }
    let deadline = rto_for_attempt(t.measured_p95(), 0);
    assert_eq!(deadline, ACK_DEADLINE_FLOOR);

    let mut cold = AckLatencyTracker::new();
    for _ in 0..MIN_SAMPLES - 1 {
        cold.record(1_000);
    }
    assert_eq!(rto_for_attempt(cold.measured_p95(), 0), ACK_DEADLINE_COLD_START);
}

#[test]
fn ack_deadline_floor_is_below_ceiling() {
    assert!(ACK_DEADLINE_FLOOR < ACK_DEADLINE_CEILING);
}

#[test]
fn heap_pops_in_deadline_order() {
    let mut w = RtoTimerWheel::new();
    let t0 = clock_start();
    let k1 = EmitKey::new(1, 0, 0, 0);
    let k2 = EmitKey::new(2, 0, 0, 0);
    let k3 = EmitKey::new(3, 0, 0, 0);
    w.schedule(k1, t0.plus(Duration::from_millis(50)));
    w.schedule(k2, t0.plus(Duration::from_millis(10)));
    w.schedule(k3, t0.plus(Duration::from_millis(30)));
    assert_eq!(w.pop_due(t0), None);
    assert_eq!(w.pop_due(t0.plus(Duration::from_millis(15))), Some(k2));
    assert_eq!(w.pop_due(t0.plus(Duration::from_millis(15))), None);
    assert_eq!(w.pop_due(t0.plus(Duration::from_millis(35))), Some(k3));
    assert_eq!(w.pop_due(t0.plus(Duration::from_millis(100))), Some(k1));
}
