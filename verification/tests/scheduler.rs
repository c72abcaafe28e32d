use ghostframe_transport::fragment_coverage::FragmentCoverage;
use ghostframe_transport::protocol::Codec;
use ghostframe_transport::scheduler::{deficit_tiles, Scheduler, TileWork, WorkState};
use ghostframe_transport::time::{Duration, Instant};
use std::collections::VecDeque;

fn at_ms(ms: u128) -> Instant {
    Instant::from_nanos(1_000_000_000_000 + ms * 1_000_000)
}

fn raw(tile_x: u8, tile_y: u8, generation: u8, payload: Vec<u8>) -> TileWork {
    TileWork::raw_for_test(tile_x, tile_y, generation, payload, at_ms(0))
}

fn share(s: &Scheduler) -> f64 {
    s.current_refinement_fraction() as f64 / 1000.0
}

trait AtStart {
    fn put(&mut self, work: TileWork);
    fn turn(&mut self, budget_bytes: usize) -> Vec<TileWork>;
    fn refine(&mut self, tile_x: u8, tile_y: u8, generation: u8, passes: Vec<Vec<u8>>);
    fn refine_subset(
        &mut self,
        tile_x: u8,
        tile_y: u8,
        generation: u8,
        pass_mask: u16,
        payloads: Vec<Vec<u8>>,
    );
}

impl AtStart for Scheduler {
    fn put(&mut self, work: TileWork) {
        self.enqueue(work, at_ms(0));
    }
    fn turn(&mut self, budget_bytes: usize) -> Vec<TileWork> {
        self.tick(budget_bytes, at_ms(0))
    }
    fn refine(&mut self, tile_x: u8, tile_y: u8, generation: u8, passes: Vec<Vec<u8>>) {
        self.enqueue_refinement(tile_x, tile_y, generation, passes, at_ms(0));
    }
    fn refine_subset(
        &mut self,
        tile_x: u8,
        tile_y: u8,
        generation: u8,
        pass_mask: u16,
        payloads: Vec<Vec<u8>>,
    ) {
        self.enqueue_refinement_subset(tile_x, tile_y, generation, pass_mask, payloads, at_ms(0));
    }
}

#[test]
fn new_sized_scheduler_has_empty_queue_and_zeroed_generations() {
    let s = Scheduler::new(5, 4);
    assert_eq!(s.queue_len(), 0);
    assert_eq!(s.generation_for(2, 1), 0);
    assert_eq!(s.cols(), 5);
    assert_eq!(s.rows(), 4);
}

#[test]
fn resize_clears_state() {
    let mut s = Scheduler::new(2, 2);
    s.put(raw(0, 0, 0, vec![1, 2, 3]));
    assert_eq!(s.queue_len(), 1);
    s.resize(8, 6);
    assert_eq!(s.queue_len(), 0);
    assert_eq!(s.generation_for(7, 5), 0);
}

#[test]
fn bump_generation_increments_and_wraps_at_16() {
    let mut s = Scheduler::new(4, 4);
    assert_eq!(s.bump_generation(1, 2), 1);
    assert_eq!(s.bump_generation(1, 2), 2);
    for _ in 0..14 {
        s.bump_generation(1, 2);
    }
    assert_eq!(s.generation_for(1, 2), 0);
}

#[test]
fn bump_generation_supersedes_matching_in_flight_work() {
    let mut s = Scheduler::new(4, 4);
    s.put(raw(1, 2, 0, vec![1, 2, 3]));
    s.put(raw(3, 0, 0, vec![4, 5, 6]));
    s.bump_generation(1, 2);
    let states = s.queue_states_for_test();
    assert!(states
        .iter()
        .any(|(x, y, st)| *x == 1 && *y == 2 && *st == WorkState::Superseded));
    assert!(states
        .iter()
        .any(|(x, y, st)| *x == 3 && *y == 0 && *st == WorkState::Pending));
}

#[test]
fn bump_generation_supersedes_regardless_of_work_generation() {
    let mut s = Scheduler::new(4, 4);
    s.put(raw(1, 2, 3, vec![1]));
    s.bump_generation(1, 2);
    let states = s.queue_states_for_test();
    assert!(states
        .iter()
        .any(|(x, y, st)| *x == 1 && *y == 2 && *st == WorkState::Superseded));
}

#[test]
fn enqueue_normalizes_state_to_pending_and_refreshes_queued_at() {
    let mut s = Scheduler::new(4, 4);
    let stale_instant = Instant::from_nanos(990_000_000_000);
    let before_enqueue = at_ms(0);
    s.put(TileWork {
        tile_x: 1,
        tile_y: 2,
        generation: 0,
        pass_idx: 0,
        total_passes: 1,
        codec: Codec::Raw,
        payload: vec![1, 2, 3],
        queued_at: stale_instant,
        last_sent_at: Some(stale_instant),
        state: WorkState::Acked,
    });
    let queued = s.peek_for_test();
    assert_eq!(queued.len(), 1);
    let w = &queued[0];
    assert_eq!(w.state, WorkState::Pending);
    assert!(w.last_sent_at.is_none());
    assert!(
        w.queued_at >= before_enqueue,
        "queued_at must be refreshed by enqueue"
    );
}

#[test]
fn tick_returns_pending_and_promotes_to_inflight() {
    let mut s = Scheduler::new(4, 4);
    s.put(raw(0, 0, 0, vec![1, 2, 3]));
    s.put(raw(1, 0, 0, vec![4, 5, 6]));
    let out = s.turn(usize::MAX);
    assert_eq!(out.len(), 2);
    for w in &s.peek_for_test() {
        assert_eq!(w.state, WorkState::InFlight);
        assert!(w.last_sent_at.is_some());
    }
}

#[test]
fn tick_drops_superseded_entries() {
    let mut s = Scheduler::new(4, 4);
    s.put(raw(0, 0, 0, vec![1]));
    s.bump_generation(0, 0);
    let out = s.turn(usize::MAX);
    assert!(out.is_empty());
    assert_eq!(s.queue_len(), 0);
}

#[test]
fn tick_retries_inflight_after_2x_rtt() {
    let mut s = Scheduler::new(4, 4);
    s.set_rtt(Duration::from_millis(5));
    s.put(raw(0, 0, 0, vec![1]));
    let first = s.turn(usize::MAX);
    assert_eq!(first.len(), 1);

    let second = s.turn(usize::MAX);
    assert!(second.is_empty());

    let third = s.tick(usize::MAX, at_ms(15));
    assert_eq!(third.len(), 1, "InFlight work should retry after 2×RTT");
}

#[test]
fn mark_acked_stops_retry_for_non_cdf53_tile() {
    let mut s = Scheduler::new(4, 4);
    s.set_rtt(Duration::from_millis(5));
    s.put(raw(0, 0, 0, vec![1]));
    let first = s.turn(usize::MAX);
    assert_eq!(first.len(), 1, "first tick emits");

    s.mark_acked(0, 0, 0, 0);

    let after_rtt = s.tick(usize::MAX, at_ms(15));
    assert!(
        after_rtt.is_empty(),
        "Acked work must NOT retry after 2×RTT (priority_queue retain drops it)"
    );
}

#[test]
fn mark_acked_stale_generation_is_noop() {
    let mut s = Scheduler::new(4, 4);
    s.set_rtt(Duration::from_millis(5));
    s.put(raw(0, 0, 0, vec![1]));
    let _ = s.turn(usize::MAX);
    let gen1 = s.bump_generation(0, 0);
    assert_eq!(gen1, 1);
    s.put(raw(0, 0, gen1, vec![2]));
    let _ = s.turn(usize::MAX);

    s.mark_acked(0, 0, 0, 0);

    let retried = s.tick(usize::MAX, at_ms(15));
    assert_eq!(retried.len(), 1, "gen=1 still InFlight, retries");
    assert_eq!(retried[0].generation, 1);
}

#[test]
fn mark_acked_duplicate_calls_are_noop() {
    let mut s = Scheduler::new(4, 4);
    s.set_rtt(Duration::from_millis(5));
    s.put(raw(0, 0, 0, vec![1]));
    let _ = s.turn(usize::MAX);
    s.mark_acked(0, 0, 0, 0);
    s.mark_acked(0, 0, 0, 0);
    s.mark_acked(0, 0, 0, 0);

    s.put(raw(0, 0, 0, vec![2]));
    let out = s.turn(usize::MAX);
    assert_eq!(out.len(), 1, "new Pending entry emits");
}

#[test]
fn tick_respects_budget_bytes() {
    let mut s = Scheduler::new(4, 4);
    s.put(raw(0, 0, 0, vec![0; 100]));
    s.put(raw(1, 0, 0, vec![0; 100]));
    s.put(raw(2, 0, 0, vec![0; 100]));
    let out = s.turn(150);
    assert_eq!(
        out.len(),
        2,
        "budget allows whole tiles up to and including the one that crosses the cap"
    );
    assert_eq!(
        s.queue_len(),
        3,
        "all three are still queued; tick doesn't drop InFlight until ACK or supersede"
    );
}

#[test]
fn clear_drains_queue_but_preserves_generations() {
    let mut s = Scheduler::new(4, 4);
    s.bump_generation(1, 2);
    s.bump_generation(1, 2);
    s.put(raw(1, 2, 2, vec![1, 2]));
    s.put(raw(0, 0, 0, vec![3, 4]));
    assert_eq!(s.queue_len(), 2);
    s.clear();
    assert_eq!(s.queue_len(), 0);
    assert_eq!(s.generation_for(1, 2), 2);
}

#[test]
fn bump_generation_collecting_returns_superseded_palrle_work() {
    let mut s = Scheduler::new(2, 2);
    s.put(TileWork {
        tile_x: 1,
        tile_y: 0,
        generation: 0,
        pass_idx: 0,
        total_passes: 1,
        codec: Codec::PalRle,
        payload: vec![0x01u8, 9, 0, 0, 0, 0],
        queued_at: at_ms(0),
        last_sent_at: None,
        state: WorkState::Pending,
    });
    let _ = s.turn(usize::MAX);
    let (new_gen, resolved) = s.bump_generation_collecting(1, 0);
    assert_eq!(new_gen, 1);
    assert_eq!(resolved.len(), 1);
    assert_eq!(resolved[0].codec, Codec::PalRle);
    assert_eq!(resolved[0].palette_id, Some(9));
    assert!(!resolved[0].via_ack);
}

#[test]
fn refinement_pass_major_round_robin() {
    let mut sch = Scheduler::new(32, 24);
    let passes_a: Vec<Vec<u8>> = (0..4).map(|i| vec![b'A', i as u8]).collect();
    let passes_b: Vec<Vec<u8>> = (0..4).map(|i| vec![b'B', i as u8]).collect();
    sch.refine(0, 0, 0, passes_a);
    sch.refine(1, 0, 0, passes_b);

    let mut emitted: Vec<(u8, u8, u8)> = Vec::new();
    for _ in 0..8 {
        let mut got = sch.turn(3);
        assert!(
            !got.is_empty(),
            "tick should emit work while queue is non-empty"
        );
        for w in got.drain(..) {
            emitted.push((w.tile_x, w.tile_y, w.pass_idx));
        }
    }
    assert_eq!(
        emitted,
        vec![
            (0, 0, 0),
            (1, 0, 0),
            (0, 0, 1),
            (1, 0, 1),
            (0, 0, 2),
            (1, 0, 2),
            (0, 0, 3),
            (1, 0, 3),
        ]
    );
}

#[test]
fn refinement_fraction_default_is_20_percent() {
    let sch = Scheduler::new(8, 8);
    assert!((share(&sch) - 0.2).abs() < 1e-6);
}

#[test]
fn refinement_fraction_halves_on_sustained_low_delivery() {
    let mut sch = Scheduler::new(8, 8);
    for i in 0..200 {
        sch.refine(0, 0, 0, vec![vec![i as u8]; 14]);
    }
    for _ in 0..10 {
        let _ = sch.turn(250);
    }
    assert!(
        (share(&sch) - 0.1).abs() < 1e-6,
        "expected 0.1 after one halving; got {}",
        share(&sch)
    );
}

#[test]
fn empty_priority_queue_lets_refinement_use_full_budget() {
    let mut sch = Scheduler::new(8, 8);
    for i in 0..5 {
        sch.refine(i, 0, 0, vec![vec![0u8; 100]; 14]);
    }
    let emitted = sch.turn(1000);
    assert!(
        emitted.len() >= 10,
        "expected ≥10 refinement passes when priority empty; got {}",
        emitted.len()
    );
}

#[test]
fn bump_generation_cancels_refinement_work() {
    let mut sch = Scheduler::new(8, 8);
    sch.refine(3, 4, 0, vec![vec![0u8; 50]; 14]);
    assert_eq!(sch.refinement_queue_len(), 14);
    let _new_gen = sch.bump_generation(3, 4);
    let superseded_count = sch
        .refinement_for_test()
        .iter()
        .filter(|w| w.state == WorkState::Superseded)
        .count();
    assert_eq!(
        superseded_count, 14,
        "expected all 14 refinement passes for the tile to be Superseded after bump_generation"
    );
}

#[test]
fn tile_fully_acked_returns_true_after_all_passes_acked() {
    let mut s = Scheduler::new(4, 4);
    assert!(!s.tile_fully_acked(2, 3, 1, 14));
    for pass in 0..13u8 {
        s.record_cdf53_ack(2, 3, 1, pass);
        assert!(
            !s.tile_fully_acked(2, 3, 1, 14),
            "should not be fully_acked before all 14 acks"
        );
    }
    s.record_cdf53_ack(2, 3, 1, 13);
    assert!(s.tile_fully_acked(2, 3, 1, 14));
}

#[test]
fn tile_fully_acked_isolates_per_tile_and_gen() {
    let mut s = Scheduler::new(4, 4);
    for pass in 0..14u8 {
        s.record_cdf53_ack(0, 0, 1, pass);
    }
    assert!(s.tile_fully_acked(0, 0, 1, 14));
    assert!(!s.tile_fully_acked(1, 0, 1, 14));
    assert!(!s.tile_fully_acked(0, 0, 2, 14));
}

#[test]
fn bump_generation_drops_old_gen_ack_counter() {
    let mut s = Scheduler::new(4, 4);
    for pass in 0..14u8 {
        s.record_cdf53_ack(0, 0, 1, pass);
    }
    assert!(s.tile_fully_acked(0, 0, 1, 14));
    let _ = s.bump_generation(0, 0);
    assert!(
        !s.tile_fully_acked(0, 0, 1, 14),
        "old gen counter should be dropped"
    );
    assert!(!s.tile_fully_acked(0, 0, 2, 14), "new gen has no acks yet");
}

#[test]
fn bump_generation_only_clears_target_tile() {
    let mut s = Scheduler::new(4, 4);
    for pass in 0..14u8 {
        s.record_cdf53_ack(0, 0, 1, pass);
        s.record_cdf53_ack(1, 1, 1, pass);
    }
    assert!(s.tile_fully_acked(0, 0, 1, 14));
    assert!(s.tile_fully_acked(1, 1, 1, 14));

    let _ = s.bump_generation(0, 0);
    assert!(!s.tile_fully_acked(0, 0, 1, 14), "target tile cleared");
    assert!(s.tile_fully_acked(1, 1, 1, 14), "non-target tile preserved");
}

#[test]
fn record_cdf53_ack_increments_per_tile_gen_counter() {
    let mut s = Scheduler::new(4, 4);
    assert!(!s.tile_fully_acked(2, 3, 1, 14));
    for p in 0..14u8 {
        s.record_cdf53_ack(2, 3, 1, p);
    }
    assert!(s.tile_fully_acked(2, 3, 1, 14));
}

#[test]
fn record_cdf53_ack_isolates_per_tile_and_gen() {
    let mut s = Scheduler::new(4, 4);
    for p in 0..14u8 {
        s.record_cdf53_ack(0, 0, 1, p);
    }
    assert!(s.tile_fully_acked(0, 0, 1, 14));
    assert!(!s.tile_fully_acked(1, 0, 1, 14), "different tile");
    assert!(!s.tile_fully_acked(0, 0, 2, 14), "different gen");
}

#[test]
fn drain_refinement_skips_superseded_after_bump() {
    let mut s = Scheduler::new(4, 4);

    let gen1 = s.bump_generation(0, 0);
    assert_eq!(gen1, 1);
    let passes: Vec<Vec<u8>> = (0..14).map(|i| vec![i as u8]).collect();
    s.refine(0, 0, gen1, passes.clone());

    let gen2 = s.bump_generation(0, 0);
    assert_eq!(gen2, 2);

    s.refine(0, 0, gen2, passes);

    let resolved = s.turn(usize::MAX);
    let emitted_old_gen: Vec<_> = resolved
        .iter()
        .filter(|w| w.tile_x == 0 && w.tile_y == 0 && w.generation == gen1)
        .collect();
    assert!(
        emitted_old_gen.is_empty(),
        "Superseded gen=1 entries must not re-emit; got {} stale emissions",
        emitted_old_gen.len(),
    );
    let emitted_new_gen: Vec<_> = resolved
        .iter()
        .filter(|w| w.tile_x == 0 && w.tile_y == 0 && w.generation == gen2)
        .collect();
    assert_eq!(emitted_new_gen.len(), 14, "all 14 new-gen passes emit");
}

#[test]
fn record_cdf53_ack_increments_delivery_window_counter() {
    let mut s = Scheduler::new(4, 4);
    for p in 0..5u8 {
        s.record_cdf53_ack(2, 3, 1, p);
    }
    assert_eq!(s.delivery_window_acked_for_test(), 5);
}

#[test]
fn refinement_fraction_restores_on_recovery() {
    let mut sch = Scheduler::new(8, 8);
    for i in 0..200 {
        sch.refine(0, 0, 0, vec![vec![i as u8]; 14]);
    }
    for _ in 0..20 {
        let _ = sch.turn(100);
    }
    assert_eq!(share(&sch), 0.05);
    sch.clear();
    for round in 0..11u8 {
        for i in 0..5u8 {
            let gen = sch.bump_generation(i, 0);
            sch.refine(i, 0, gen, vec![vec![round, i]; 14]);
        }
        let emitted = sch.turn(100_000);
        for w in &emitted {
            sch.record_cdf53_ack(w.tile_x, w.tile_y, w.generation, w.pass_idx);
        }
    }
    assert!(
        share(&sch) > 0.05,
        "expected fraction to recover above 0.05 after 11 healthy rounds; got {}",
        share(&sch)
    );
}

#[test]
fn refinement_deficit_tiles_counts_unique_pending_tiles() {
    let s = Scheduler::new(4, 4);
    assert_eq!(s.refinement_deficit_tiles(), 0);
    let mut refinement_queue: VecDeque<TileWork> = VecDeque::new();

    for pass_idx in [0u8, 1u8] {
        refinement_queue.push_back(TileWork {
            tile_x: 0,
            tile_y: 0,
            generation: 0,
            pass_idx,
            total_passes: 14,
            codec: Codec::Cdf53,
            payload: Vec::new(),
            queued_at: at_ms(0),
            last_sent_at: None,
            state: WorkState::Pending,
        });
    }
    refinement_queue.push_back(TileWork {
        tile_x: 1,
        tile_y: 2,
        generation: 0,
        pass_idx: 0,
        total_passes: 14,
        codec: Codec::Cdf53,
        payload: Vec::new(),
        queued_at: at_ms(0),
        last_sent_at: None,
        state: WorkState::Pending,
    });
    assert_eq!(deficit_tiles(&refinement_queue), 2);

    refinement_queue.front_mut().unwrap().state = WorkState::Acked;
    assert_eq!(deficit_tiles(&refinement_queue), 2);

    refinement_queue[1].state = WorkState::Acked;
    assert_eq!(deficit_tiles(&refinement_queue), 1);
}

#[test]
fn pending_refinement_snapshot_reads_from_queue_and_coverage() {
    let mut s = Scheduler::new(4, 4);
    let passes: Vec<Vec<u8>> = (0..14).map(|i| vec![i as u8]).collect();
    s.refine(2, 3, 1, passes);

    let snap = s.pending_refinement_snapshot(&[]);
    let our: Vec<_> = snap.iter().filter(|e| e.0 == 2 && e.1 == 3).collect();
    assert_eq!(our.len(), 1);
    assert_eq!(our[0].2, 1);
    assert_eq!(our[0].3, 14, "all 14 still pending in queue");

    let _ = s.turn(usize::MAX);
    let snap = s.pending_refinement_snapshot(&[]);
    let our: Vec<_> = snap.iter().filter(|e| e.0 == 2 && e.1 == 3).collect();
    assert!(our.is_empty(), "queue drained, no coverage source");

    let coverage: Vec<FragmentCoverage> = (0..5)
        .map(
            |pass_idx| FragmentCoverage {
                tile_x: 2,
                tile_y: 3,
                generation: 1,
                pass_idx,
                codec: Codec::Cdf53,
                palette_id: None,
            },
        )
        .collect();
    let snap = s.pending_refinement_snapshot(&coverage);
    let our: Vec<_> = snap.iter().filter(|e| e.0 == 2 && e.1 == 3).collect();
    assert_eq!(our.len(), 1);
    assert_eq!(our[0].3, 5, "5 outstanding coverage entries");
}

#[test]
fn cdf53_unacked_tiles_for_gen_lists_under_target() {
    let mut s = Scheduler::new(4, 4);
    for p in 0..3u8 { s.record_cdf53_ack(0, 0, 1, p); }
    for p in 0..14u8 { s.record_cdf53_ack(1, 0, 1, p); }
    let _ = s.cdf53_passes_acked_count(2, 0, 1);
    let mut out = s.cdf53_unacked_tiles_for_gen(&[
        ((0u8, 0u8), 1u8, 14u8),
        ((1u8, 0u8), 1u8, 14u8),
        ((2u8, 0u8), 1u8, 14u8),
    ]);
    out.sort();
    assert_eq!(out, vec![(0u8, 0u8), (2u8, 0u8)]);
}

#[test]
fn record_cdf53_ack_is_idempotent_per_pass_idx() {
    let mut s = Scheduler::new(4, 4);
    for _ in 0..11 {
        s.record_cdf53_ack(2, 3, 1, 3);
    }
    assert!(
        !s.tile_fully_acked(2, 3, 1, 14),
        "duplicate ACKs of the same pass_idx must not satisfy tile_fully_acked"
    );
    for p in 0..14u8 {
        s.record_cdf53_ack(2, 3, 1, p);
    }
    assert!(
        s.tile_fully_acked(2, 3, 1, 14),
        "all 14 distinct pass_idxs ACKed → tile_fully_acked"
    );
    assert!(!s.tile_fully_acked(2, 3, 2, 14));
}

#[test]
fn cdf53_passes_acked_count_returns_popcount() {
    let mut s = Scheduler::new(4, 4);
    s.record_cdf53_ack(1, 1, 0, 0);
    s.record_cdf53_ack(1, 1, 0, 5);
    s.record_cdf53_ack(1, 1, 0, 13);
    s.record_cdf53_ack(1, 1, 0, 0);
    s.record_cdf53_ack(1, 1, 0, 5);
    assert_eq!(s.cdf53_passes_acked_count(1, 1, 0), 3);
}

#[test]
fn cdf53_unacked_pass_mask_with_no_entry_is_all_unacked() {
    let s = Scheduler::new(4, 4);
    assert_eq!(s.cdf53_unacked_pass_mask(0, 0, 1, 14), 0x3FFF);
}

#[test]
fn cdf53_unacked_pass_mask_with_full_acks_returns_zero() {
    let mut s = Scheduler::new(4, 4);
    for p in 0..14u8 {
        s.record_cdf53_ack(0, 0, 1, p);
    }
    assert_eq!(s.cdf53_unacked_pass_mask(0, 0, 1, 14), 0);
}

#[test]
fn cdf53_unacked_pass_mask_partial_acks_returns_complement() {
    let mut s = Scheduler::new(4, 4);
    s.record_cdf53_ack(2, 3, 0, 0);
    s.record_cdf53_ack(2, 3, 0, 4);
    s.record_cdf53_ack(2, 3, 0, 7);
    let acked_bits = (1u16 << 0) | (1u16 << 4) | (1u16 << 7);
    let full = (1u16 << 14) - 1;
    let expected = full & !acked_bits;
    assert_eq!(s.cdf53_unacked_pass_mask(2, 3, 0, 14), expected);
}

#[test]
fn cdf53_unacked_pass_mask_other_gens_dont_leak() {
    let mut s = Scheduler::new(4, 4);
    for p in 0..14u8 {
        s.record_cdf53_ack(0, 0, 1, p);
    }
    assert_eq!(s.cdf53_unacked_pass_mask(0, 0, 2, 14), 0x3FFF);
}

#[test]
fn enqueue_refinement_subset_assigns_correct_pass_idxs() {
    let mut s = Scheduler::new(4, 4);
    let mask = (1u16 << 2) | (1u16 << 5) | (1u16 << 9);
    s.refine_subset(
        3,
        1,
        4,
        mask,
        vec![vec![0xAA], vec![0xBB], vec![0xCC]],
    );
    let entries: Vec<_> = s
        .refinement_for_test()
        .iter()
        .map(|w| (w.pass_idx, w.payload.clone(), w.generation, w.total_passes))
        .collect();
    assert_eq!(entries.len(), 3);
    assert_eq!(entries[0], (2u8, vec![0xAAu8], 4u8, 14u8));
    assert_eq!(entries[1], (5u8, vec![0xBBu8], 4u8, 14u8));
    assert_eq!(entries[2], (9u8, vec![0xCCu8], 4u8, 14u8));
}

#[test]
fn enqueue_refinement_subset_empty_mask_is_noop() {
    let mut s = Scheduler::new(2, 2);
    s.refine_subset(0, 0, 1, 0, vec![]);
    assert_eq!(s.refinement_queue_len(), 0);
}

#[test]
fn enqueue_refinement_subset_single_pass() {
    let mut s = Scheduler::new(2, 2);
    s.refine_subset(1, 1, 2, 1u16 << 7, vec![vec![0xDE, 0xAD]]);
    assert_eq!(s.refinement_queue_len(), 1);
    let w = &s.refinement_for_test()[0];
    assert_eq!(w.pass_idx, 7);
    assert_eq!(w.payload, vec![0xDE, 0xAD]);
    assert_eq!(w.total_passes, 14);
}

#[test]
fn refinement_queue_holds_what_was_enqueued() {
    let mut s = Scheduler::new(4, 4);
    assert!(!s.refinement_queue_holds_tile(1, 2));
    let generation = s.bump_generation(1, 2);
    s.refine(1, 2, generation, vec![vec![1], vec![2]]);
    assert!(s.refinement_queue_holds_tile(1, 2));
    assert!(!s.refinement_queue_holds_tile(2, 1));
    s.bump_generation(1, 2);
    assert!(!s.refinement_queue_holds_tile(1, 2));
}
