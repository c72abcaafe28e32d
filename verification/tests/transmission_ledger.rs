use ghostframe_transport::reliable_emitter::EmitKey;
use ghostframe_transport::time::{Duration, Instant};
use ghostframe_transport::transmission_ledger::{Resolution, Transmission, TransmissionLedger};

fn clock_start() -> Instant {
    Instant::from_nanos(1_000_000_000_000)
}

fn tx(n: u32) -> Transmission {
    Transmission {
        emit_us: n * 1000,
        wire_bytes: 1200,
        key: EmitKey::new(n, 0, 0, 0),
    }
}

#[test]
fn a_resolved_transmission_is_classified_once_and_not_expired() {
    let t0 = clock_start();
    let mut l = TransmissionLedger::new(64);
    l.record(7, t0, tx(7));
    assert_eq!(l.resolve(7), Some(Resolution::Live(tx(7))));
    assert_eq!(l.resolve(7), None, "a second resolve finds nothing");
    assert!(
        l.expire(t0.plus(Duration::from_secs(10)), Duration::from_millis(1))
            .is_empty(),
        "an acknowledged transmission must never also be reported lost"
    );
}

#[test]
fn an_unresolved_transmission_expires_as_lost_once() {
    let t0 = clock_start();
    let mut l = TransmissionLedger::new(64);
    l.record(7, t0, tx(7));
    let lost = l.expire(t0.plus(Duration::from_millis(500)), Duration::from_millis(100));
    assert_eq!(lost, vec![tx(7)]);
    assert!(
        l.expire(t0.plus(Duration::from_secs(10)), Duration::from_millis(1))
            .is_empty(),
        "expiry must not report the same transmission twice"
    );
}

#[test]
fn an_acknowledgement_after_expiry_is_counted_and_releases_content() {
    let t0 = clock_start();
    let mut l = TransmissionLedger::new(64);
    l.record(7, t0, tx(7));
    assert_eq!(
        l.expire(t0.plus(Duration::from_millis(500)), Duration::from_millis(100))
            .len(),
        1
    );
    assert_eq!(
        l.resolve(7),
        Some(Resolution::Late(tx(7))),
        "the content must still be releasable, or its cache entry is stranded"
    );
    assert_eq!(
        l.stats().acked_after_declared_lost,
        1,
        "a late acknowledgement is visible, not silent"
    );
    assert_eq!(
        l.stats().unknown_acks,
        0,
        "it is no longer an unknown acknowledgement -- we know exactly what it was"
    );
}

#[test]
fn expiry_stops_at_the_first_young_record() {
    let t0 = clock_start();
    let mut l = TransmissionLedger::new(64);
    l.record(1, t0, tx(1));
    l.record(2, t0.plus(Duration::from_millis(400)), tx(2));
    let lost = l.expire(t0.plus(Duration::from_millis(500)), Duration::from_millis(200));
    assert_eq!(lost, vec![tx(1)], "only the old one");
    assert_eq!(l.len(), 1);
}

#[test]
fn a_late_acknowledgement_still_resolves_after_expiry() {
    let t0 = clock_start();
    let mut l = TransmissionLedger::new(64);
    let key = EmitKey::new(7, 1, 2, 0);
    l.record(99, t0, Transmission { emit_us: 10, wire_bytes: 500, key });

    let lost = l.expire(t0.plus(Duration::from_millis(300)), Duration::from_millis(100));
    assert_eq!(lost.len(), 1, "the transmission is declared lost");

    match l.resolve(99) {
        Some(Resolution::Late(tx)) => assert_eq!(tx.key, key),
        other => panic!("a late ack must still resolve to its content, got {other:?}"),
    }
    assert_eq!(l.stats().acked_after_declared_lost, 1);
}

#[test]
fn a_live_acknowledgement_resolves_as_live() {
    let t0 = clock_start();
    let mut l = TransmissionLedger::new(64);
    let key = EmitKey::new(7, 1, 2, 0);
    l.record(99, t0, Transmission { emit_us: 10, wire_bytes: 500, key });
    match l.resolve(99) {
        Some(Resolution::Live(tx)) => assert_eq!(tx.key, key),
        other => panic!("expected Live, got {other:?}"),
    }
    assert_eq!(l.stats().acked_after_declared_lost, 0);
}

#[test]
fn a_tombstone_resolves_only_once() {
    let t0 = clock_start();
    let mut l = TransmissionLedger::new(64);
    l.record(99, t0, Transmission { emit_us: 10, wire_bytes: 500, key: EmitKey::new(7, 1, 2, 0) });
    let _ = l.expire(t0.plus(Duration::from_millis(300)), Duration::from_millis(100));
    assert!(matches!(l.resolve(99), Some(Resolution::Late(_))));
    assert!(l.resolve(99).is_none(), "a duplicate ack must not resolve twice");
    assert_eq!(l.stats().acked_after_declared_lost, 1, "and must not double-count");
}

#[test]
fn tombstones_are_bounded() {
    let t0 = clock_start();
    let mut l = TransmissionLedger::new(8);
    for ws in 0..40u32 {
        l.record(ws, t0, Transmission { emit_us: 0, wire_bytes: 1, key: EmitKey::new(ws, 0, 0, 0) });
        let _ = l.expire(t0.plus(Duration::from_millis(300)), Duration::from_millis(100));
    }
    assert!(
        l.tombstone_len() <= 8,
        "tombstones must be bounded by capacity; got {}",
        l.tombstone_len()
    );
    assert!(matches!(l.resolve(39), Some(Resolution::Late(_))));
}

#[test]
fn an_unknown_wire_seq_still_resolves_to_nothing() {
    let mut l = TransmissionLedger::new(8);
    assert!(l.resolve(12345).is_none());
    assert_eq!(l.stats().unknown_acks, 1);
}

#[test]
fn the_cap_evicts_oldest_first_and_counts() {
    let t0 = clock_start();
    let mut l = TransmissionLedger::new(2);
    l.record(1, t0, tx(1));
    l.record(2, t0, tx(2));
    l.record(3, t0, tx(3));
    assert_eq!(l.len(), 2);
    assert_eq!(l.resolve(1), None, "oldest was evicted");
    assert_eq!(l.resolve(3), Some(Resolution::Live(tx(3))));
    assert_eq!(l.stats().capacity_evictions, 1);
}

#[test]
fn a_full_ledger_drops_the_earliest_and_only_what_is_older_is_lost() {
    let t0 = clock_start();
    let tx = |n: u32| Transmission { emit_us: n, wire_bytes: 1, key: EmitKey::new(n, 0, 0, 0) };
    let mut l = TransmissionLedger::new(2);
    l.record(5, t0, tx(5));
    l.record(3, t0, tx(3));
    l.record(5, t0.plus(Duration::from_millis(1)), tx(50));
    assert_eq!(l.len(), 2, "a record under the same number takes its place");
    assert_eq!(l.stats().capacity_evictions, 1);
    l.record(9, t0.plus(Duration::from_millis(2)), tx(9));
    assert_eq!(l.len(), 2);
    assert_eq!(l.stats().capacity_evictions, 2);
    assert!(l.resolve(3).is_none(), "the earliest was dropped");
    assert_eq!(l.resolve(5), Some(Resolution::Live(tx(50))));
    assert!(l.resolve(5).is_none());
    let horizon = Duration::from_millis(100);
    assert!(l.expire(t0.plus(Duration::from_millis(102)), horizon).is_empty());
    assert_eq!(l.expire(t0.plus(Duration::from_micros(102_001)), horizon), vec![tx(9)]);
    assert!(l.is_empty());
    assert_eq!(l.resolve(9), Some(Resolution::Late(tx(9))));
    assert!(l.resolve(9).is_none());
    assert_eq!(l.stats().unknown_acks, 3);
    let mut none = TransmissionLedger::new(0);
    none.record(1, t0, tx(1));
    assert!(none.is_empty() && none.resolve(1).is_none());
}
