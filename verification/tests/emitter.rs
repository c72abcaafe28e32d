use ghostframe_transport::reliable_emitter::emitter::{first_fragment_fp, ReliableTileEmitter};
use ghostframe_transport::reliable_emitter::traits::{DatagramSender, SendOutcome};
use ghostframe_transport::reliable_emitter::{EmitKey, FEC_GROUP_SIZE_K};
use ghostframe_transport::time::{Duration, Instant};

fn clock_start() -> Instant {
    Instant::from_nanos(1_000_000_000_000)
}

#[derive(Default)]
struct CollectSender {
    sent: Vec<Vec<u8>>,
}

impl DatagramSender for CollectSender {
    fn send(&mut self, dg: &[u8]) -> SendOutcome {
        self.sent.push(dg.to_vec());
        SendOutcome::Sent
    }
}

/// Takes as many datagrams as it has room for.
struct ChoosySender {
    room: usize,
    sent: Vec<Vec<u8>>,
    refused: usize,
}

impl DatagramSender for ChoosySender {
    fn send(&mut self, dg: &[u8]) -> SendOutcome {
        if self.room == 0 {
            self.refused += 1;
            return SendOutcome::Rejected;
        }
        self.room -= 1;
        self.sent.push(dg.to_vec());
        SendOutcome::Sent
    }
}

struct Sink<'a>(&'a mut Vec<Vec<u8>>);

impl<'a> DatagramSender for Sink<'a> {
    fn send(&mut self, dg: &[u8]) -> SendOutcome {
        self.0.push(dg.to_vec());
        SendOutcome::Sent
    }
}

fn fake_source(seq: u32, frag_idx: u16, payload: u8) -> Vec<u8> {
    let mut v = vec![0u8; 25];
    let fs = 0x8000_0000 | seq;
    v[0..4].copy_from_slice(&fs.to_be_bytes());
    v[4..6].copy_from_slice(&frag_idx.to_be_bytes());
    v[6..8].copy_from_slice(&1u16.to_be_bytes());
    v[20..24].copy_from_slice(&1u32.to_be_bytes());
    v[24] = payload;
    v
}

#[test]
fn submit_one_then_drain_emits_one_source() {
    let mut e = ReliableTileEmitter::new();
    let mut sender = CollectSender::default();
    let now = clock_start();
    let key = EmitKey::new(1, 0, 0, 0);
    e.submit_one(key, fake_source(1, 0, 0xAA), now);
    e.drain(&mut sender, now);
    assert_eq!(sender.sent.len(), 1);
    assert_eq!(e.stats.source_emitted, 1);
    assert!(e.cached(&key).is_some());
}

#[test]
fn submit_one_stamps_wire_seq_into_datagram_bytes() {
    let mut e = ReliableTileEmitter::new();
    let mut sender = CollectSender::default();
    let now = clock_start();
    e.submit_one(EmitKey::new(1, 0, 0, 0), fake_source(1, 0, 0), now);
    e.submit_one(EmitKey::new(2, 0, 0, 0), fake_source(2, 0, 0), now);
    e.drain(&mut sender, now);
    let s0 = &sender.sent[0];
    let s1 = &sender.sent[1];
    let ws0 = u32::from_be_bytes(s0[8..12].try_into().unwrap());
    let ws1 = u32::from_be_bytes(s1[8..12].try_into().unwrap());
    assert_eq!(ws0, 0);
    assert_eq!(ws1, 1);
}

#[test]
fn submit_k_sources_emits_one_parity_after_offset() {
    let mut e = ReliableTileEmitter::new();
    let mut sender = CollectSender::default();
    let now = clock_start();
    for i in 0..(FEC_GROUP_SIZE_K as u32 * 2) {
        e.submit_one(EmitKey::new(i, 0, 0, 0), fake_source(i, 0, 0), now);
    }
    e.submit_one(EmitKey::new(99, 0, 0, 0), fake_source(99, 0, 0), now);
    e.drain(&mut sender, now);
    assert_eq!(e.stats.parity_emitted, 1, "exactly one parity for first K sources");
    assert_eq!(sender.sent.len(), (FEC_GROUP_SIZE_K as u32 * 2 + 1 + 1) as usize);
    let parities: Vec<&Vec<u8>> = sender.sent.iter().filter(|b| b[0] == 0x04).collect();
    assert_eq!(parities.len(), 1);
}

#[test]
fn on_ack_removes_cache_entry_and_bumps_ack_hit() {
    let mut e = ReliableTileEmitter::new();
    let mut sender = CollectSender::default();
    let now = clock_start();
    let key = EmitKey::new(1, 0, 0, 0);
    e.submit_one(key, fake_source(1, 0, 0), now);
    e.drain(&mut sender, now);
    assert!(e.cached(&key).is_some());
    e.on_ack(&[key]);
    assert!(e.cached(&key).is_none());
    assert_eq!(e.stats.ack_hit, 1);
    assert_eq!(e.stats.ack_miss, 0);
}

#[test]
fn on_ack_for_unknown_key_bumps_ack_miss() {
    let mut e = ReliableTileEmitter::new();
    e.on_ack(&[EmitKey::new(99, 0, 0, 0)]);
    assert_eq!(e.stats.ack_miss, 1);
    assert_eq!(e.stats.ack_hit, 0);
}

#[test]
fn tick_retransmits_when_rto_expires() {
    let mut e = ReliableTileEmitter::new();
    let mut sender = CollectSender::default();
    let t0 = clock_start();
    let key = EmitKey::new(1, 0, 0, 0);
    e.submit_one(key, fake_source(1, 0, 0), t0);
    e.drain(&mut sender, t0);
    assert_eq!(sender.sent.len(), 1);
    let entry_first_sent = e.cached(&key).unwrap().first_sent_at;
    let t1 = t0.plus(Duration::from_millis(60));
    e.tick(t1, usize::MAX);
    e.drain(&mut sender, t1);
    assert_eq!(sender.sent.len(), 2);
    let entry = e.cached(&key).unwrap();
    assert_eq!(entry.attempts, 1);
    assert!(entry.last_sent_at > entry_first_sent);
    assert_eq!(e.stats.rto_fired, 1);
    assert_eq!(e.stats.retransmit_attempts_total, 1);
}

#[test]
fn tick_keeps_retransmitting_after_many_attempts() {
    let mut e = ReliableTileEmitter::new();
    let mut sender = CollectSender::default();
    let t0 = clock_start();
    let key = EmitKey::new(1, 0, 0, 0);
    e.submit_one(key, fake_source(1, 0, 0), t0);
    e.drain(&mut sender, t0);
    let mut tn = t0;
    for _ in 0..10 {
        tn = tn.plus(Duration::from_millis(500));
        e.tick(tn, usize::MAX);
        e.drain(&mut sender, tn);
    }
    assert!(e.cached(&key).is_some(), "entry must not be retired");
    assert_eq!(e.stats.rto_max_retransmits_reached, 0);
}

#[test]
fn tick_skips_already_acked_entries() {
    let mut e = ReliableTileEmitter::new();
    let mut sender = CollectSender::default();
    let t0 = clock_start();
    let key = EmitKey::new(1, 0, 0, 0);
    e.submit_one(key, fake_source(1, 0, 0), t0);
    e.drain(&mut sender, t0);
    e.on_ack(&[key]);
    let t1 = t0.plus(Duration::from_millis(60));
    e.tick(t1, usize::MAX);
    e.drain(&mut sender, t1);
    assert_eq!(sender.sent.len(), 1, "no retransmit after ACK");
    assert_eq!(e.stats.rto_fired, 0);
}

#[test]
fn on_nack_reemits_specific_fragment_only() {
    let mut e = ReliableTileEmitter::new();
    let mut sender = CollectSender::default();
    let t0 = clock_start();
    let key = EmitKey::new(1, 0, 0, 0);
    e.submit_one(key, fake_source(1, 0, 0), t0);
    e.drain(&mut sender, t0);
    assert_eq!(sender.sent.len(), 1);
    e.on_nack(&[(key, 0u8)], t0);
    e.drain(&mut sender, t0);
    assert_eq!(sender.sent.len(), 2);
    assert_eq!(e.stats.nack_hit, 1);
    assert_eq!(e.cached(&key).unwrap().attempts, 1);
}

#[test]
fn on_nack_for_unknown_key_bumps_nack_miss() {
    let mut e = ReliableTileEmitter::new();
    e.on_nack(&[(EmitKey::new(99, 0, 0, 0), 0u8)], clock_start());
    assert_eq!(e.stats.nack_miss, 1);
}

#[test]
fn cancel_for_tile_clears_all_gens_and_blocks_retransmit() {
    let mut e = ReliableTileEmitter::new();
    let mut sender = CollectSender::default();
    let t0 = clock_start();
    let k1 = EmitKey::new(1, 5, 5, 0);
    let k2 = EmitKey::new(2, 5, 5, 1);
    let k3 = EmitKey::new(1, 5, 6, 0);
    e.submit_one(k1, fake_source(1, 0, 0), t0);
    e.submit_one(k2, fake_source(2, 0, 0), t0);
    e.submit_one(k3, fake_source(3, 0, 0), t0);
    e.drain(&mut sender, t0);
    e.cancel_for_tile(5, 5);
    assert!(e.cached(&k1).is_none());
    assert!(e.cached(&k2).is_none());
    assert!(e.cached(&k3).is_some());
    let t1 = t0.plus(Duration::from_millis(60));
    e.tick(t1, usize::MAX);
    e.drain(&mut sender, t1);
    assert_eq!(sender.sent.len(), 4, "3 initial + 1 retransmit for k3 only");
}

#[test]
fn on_nack_re_emits_without_budget_cap() {
    let mut e = ReliableTileEmitter::new();
    let mut sender = CollectSender::default();
    let t0 = clock_start();
    let key = EmitKey::new(1, 0, 0, 0);
    e.submit_one(key, fake_source(1, 0, 0), t0);
    e.drain(&mut sender, t0);
    let nacks = 10usize;
    for _ in 0..nacks {
        e.on_nack(&[(key, 0u8)], t0);
        e.drain(&mut sender, t0);
    }
    assert_eq!(sender.sent.len(), 1 + nacks);
    assert_eq!(e.stats.nack_hit, nacks as u64);
    assert!(e.cached(&key).is_some());
}

#[test]
fn submit_batch_processes_all_items() {
    let mut e = ReliableTileEmitter::new();
    let mut sender = CollectSender::default();
    let now = clock_start();
    let items: Vec<(EmitKey, Vec<u8>)> = (0..5)
        .map(|i| (EmitKey::new(i, 0, 0, 0), fake_source(i, 0, 0)))
        .collect();
    e.submit_batch(items, now);
    e.drain(&mut sender, now);
    assert_eq!(sender.sent.len(), 5);
    assert_eq!(e.stats.source_emitted, 5);
}

#[test]
fn tick_keeps_retrying_indefinitely_until_acked() {
    let mut e = ReliableTileEmitter::new();
    let key = EmitKey::new(1, 0, 0, 0);
    let now = clock_start();
    e.submit_one(key, vec![0u8; 16], now);
    let mut sink: Vec<Vec<u8>> = Vec::new();
    e.drain(&mut Sink(&mut sink), now);
    let initial_sends = sink.len();
    assert!(initial_sends >= 1, "initial submit produced at least one send");

    let mut t = now;
    for _ in 0..30 {
        t = t.plus(Duration::from_secs(5));
        e.tick(t, usize::MAX);
        e.drain(&mut Sink(&mut sink), t);
    }
    assert!(
        e.has_cache_entries_for_tile(0, 0),
        "cache entry must survive arbitrarily many RTO firings (no retirement)"
    );
    e.on_ack(&[key]);
    assert!(
        !e.has_cache_entries_for_tile(0, 0),
        "ACK must remove the entry from the cache"
    );
}

#[test]
fn tick_respects_max_retransmits_budget() {
    let mut e = ReliableTileEmitter::new();
    let now = clock_start();
    for i in 0..1000u32 {
        let k = EmitKey::new(i, 0, 0, 0);
        e.submit_one(k, vec![0u8; 16], now);
    }
    let mut sink: Vec<Vec<u8>> = Vec::new();
    e.drain(&mut Sink(&mut sink), now);
    sink.clear();

    let t1 = now.plus(Duration::from_secs(1));

    let before = e.stats.rto_fired;
    e.tick(t1, 64);
    e.drain(&mut Sink(&mut sink), t1);
    assert_eq!(
        e.stats.rto_fired - before,
        64,
        "first tick must fire exactly the budget"
    );
    assert_eq!(sink.len(), 64, "exactly 64 retransmits drained to wire");

    sink.clear();
    let before = e.stats.rto_fired;
    e.tick(t1, 64);
    e.drain(&mut Sink(&mut sink), t1);
    assert_eq!(e.stats.rto_fired - before, 64, "second tick fires another batch");
    assert_eq!(sink.len(), 64);

    for _ in 0..20 {
        e.tick(t1, 64);
    }
    assert_eq!(e.pending_cache_entries(), 1000);
}

fn one_in_flight(t0: Instant) -> ReliableTileEmitter {
    let mut e = ReliableTileEmitter::new();
    let mut sender = CollectSender::default();
    e.submit_one(EmitKey::new(1, 0, 0, 0), fake_source(1, 0, 0), t0);
    e.drain(&mut sender, t0);
    e
}

fn submitted_then_fired_after(mut e: ReliableTileEmitter, ms: u64) -> u64 {
    let t0 = clock_start();
    let mut sender = CollectSender::default();
    e.submit_one(EmitKey::new(1, 0, 0, 0), fake_source(1, 0, 0), t0);
    e.drain(&mut sender, t0);
    e.tick(t0.plus(Duration::from_millis(ms)), usize::MAX);
    e.stats.rto_fired
}

#[test]
fn deadline_follows_its_source() {
    {
        let make = || {
            let mut e = ReliableTileEmitter::new();
            e.set_smoothed_rtt(Duration::from_millis(10));
            e
        };
        assert_eq!(submitted_then_fired_after(make(), 19), 0);
        assert_eq!(submitted_then_fired_after(make(), 20), 1);
        let zero = || {
            let mut e = ReliableTileEmitter::new();
            e.set_smoothed_rtt(Duration::from_nanos(0));
            e
        };
        assert_eq!(submitted_then_fired_after(zero(), 49), 0);
        assert_eq!(submitted_then_fired_after(zero(), 50), 1);
    }

    {
        let make = |p95: Option<Duration>| {
            let mut e = ReliableTileEmitter::new();
            e.set_ack_deadline(p95);
            e
        };
        let p95 = Some(Duration::from_millis(100));
        assert_eq!(submitted_then_fired_after(make(p95), 199), 0);
        assert_eq!(submitted_then_fired_after(make(p95), 200), 1);
        assert_eq!(submitted_then_fired_after(make(None), 999), 0);
        assert_eq!(submitted_then_fired_after(make(None), 1000), 1);
        let low = Some(Duration::from_millis(1));
        assert_eq!(submitted_then_fired_after(make(low), 149), 0);
        assert_eq!(submitted_then_fired_after(make(low), 150), 1);
    }

    {
        let t0 = clock_start();
        let mut e = ReliableTileEmitter::new();
        e.set_ack_deadline(Some(Duration::from_millis(100)));
        e.submit_one(EmitKey::new(1, 0, 0, 0), fake_source(1, 0, 7), t0);
        let mut fired = Vec::new();
        for ms in (0..3_000).step_by(100) {
            let before = e.stats.rto_fired;
            e.tick(t0.plus(Duration::from_millis(ms)), 1);
            if e.stats.rto_fired > before {
                fired.push(ms);
            }
        }
        assert_eq!(fired, vec![200, 600, 1_400], "each wait is twice the last");
        let mut sender = CollectSender::default();
        e.drain(&mut sender, t0.plus(Duration::from_secs(3)));
        assert_eq!(sender.sent.len(), 4);
        assert!(sender.sent.iter().all(|dg| *dg == sender.sent[0]));
    }

    {
        let t0 = clock_start();
        let mut e = ReliableTileEmitter::new();
        e.set_ack_deadline(Some(Duration::from_millis(100)));
        let key = EmitKey::new(1, 0, 0, 0);
        for i in 0..5u8 {
            let at = t0.plus(Duration::from_millis(30 * i as u64));
            let k = EmitKey::new(1, i, 0, 0);
            e.submit_one(k, fake_source(1, 0, i), at);
        }
        e.on_ack(&[EmitKey::new(1, 3, 0, 0)]);
        let mut sender = CollectSender::default();
        e.drain(&mut sender, t0);
        let first = sender.sent[0].clone();
        let mut counted = 0;
        for ms in [200, 600, 1_400] {
            let mut again = CollectSender::default();
            let at = t0.plus(Duration::from_millis(ms));
            let fired = e.stats.rto_fired;
            e.tick(at, usize::MAX);
            e.drain(&mut again, at);
            assert_eq!(again.sent.iter().filter(|dg| **dg == first).count(), 1);
            assert_eq!(e.stats.rto_fired - fired, again.sent.len() as u64);
            counted += 1;
            let entry = e.cached(&key).unwrap();
            assert_eq!(entry.attempts, counted);
            assert!(entry.rto_deadline.nanos > at.nanos);
        }
    }
}

#[test]
fn nothing_fires_while_deadlines_are_off() {
    {
        let t0 = clock_start();
        let late = t0.plus(Duration::from_secs(10));
        let mut e = one_in_flight(t0);
        e.set_deadlines_off(true);
        e.tick(late, usize::MAX);
        assert_eq!(e.stats.rto_fired, 0);
        e.set_deadlines_off(false);
        e.tick(late, usize::MAX);
        assert_eq!(e.stats.rto_fired, 1);
    }

    {
        let t0 = clock_start();
        let late = t0.plus(Duration::from_secs(10));
        let mut e = one_in_flight(t0);
        assert!(e.has_cache_entries_for_tile(0, 0));
        e.clear_cache();
        assert!(!e.has_cache_entries_for_tile(0, 0));
        e.tick(late, usize::MAX);
        let mut sender = CollectSender::default();
        e.drain(&mut sender, late);
        assert!(sender.sent.is_empty());
        assert_eq!(e.stats.rto_fired, 0);
    }

    {
        let t0 = clock_start();
        let mut e = ReliableTileEmitter::default();
        for i in 0..3 {
            e.submit_one(EmitKey::new(i, 0, 0, 0), fake_source(i, 0, i as u8), t0);
        }
        let mut sender = ChoosySender {
            room: 2,
            sent: Vec::new(),
            refused: 0,
        };
        e.drain(&mut sender, t0);
        assert_eq!((sender.sent.len(), sender.refused), (2, 1));
        sender.room = 1;
        e.drain(&mut sender, t0);
        assert_eq!((sender.sent.len(), sender.refused), (3, 1));
        let payloads: Vec<u8> = sender.sent.iter().map(|dg| dg[24]).collect();
        assert_eq!(payloads, vec![0, 1, 2], "the one refused comes next");
        e.drain(&mut sender, t0);
        assert_eq!((sender.sent.len(), sender.refused), (3, 1));
    }
}

#[test]
fn first_fragment_fingerprint_values() {
    assert_eq!(first_fragment_fp(&[]), (0, 0xFF, 0xFF, 0xFF));
    assert_eq!(first_fragment_fp(&[vec![]]), (0x811c_9dc5, 0xFF, 0xFF, 0xFF));
    assert_eq!(first_fragment_fp(&[b"a".to_vec()]), (0xe40c_292c, 0xFF, 0xFF, 0xFF));
    let mut a = fake_source(1, 0, 0x01);
    a[18] = 4;
    a.push(7);
    let mut b = a.clone();
    b[12] = 0x55;
    b[15] = 0x66;
    assert_eq!(first_fragment_fp(&[a.clone()]), first_fragment_fp(&[b.clone()]));
    let (_, codec, palette_id, flags) = first_fragment_fp(&[a]);
    assert_eq!((codec, palette_id, flags), (2, 7, 1));
    b[16] = 0x77;
    assert_ne!(first_fragment_fp(&[b.clone()]).0, first_fragment_fp(&[fake_source(1, 0, 1)]).0);
}
