use ghostframe_transport::reliable_emitter::cache::{CacheEntry, RetransmitCache};
use ghostframe_transport::reliable_emitter::lists::{FragmentList, WireSeqList};
use ghostframe_transport::reliable_emitter::{EmitKey, CACHE_CAPACITY};
use ghostframe_transport::time::Instant;

fn clock_start() -> Instant {
    Instant::from_nanos(1_000_000_000_000)
}

fn mk_entry(now: Instant) -> CacheEntry {
    CacheEntry {
        fragments: FragmentList::of(vec![vec![1, 2, 3]]),
        wire_seqs: WireSeqList::of(vec![0]),
        queued_at: now,
        first_sent_at: now,
        last_sent_at: now,
        attempts: 0,
        rto_deadline: now,
        probe: None,
    }
}

#[test]
fn bytes_outstanding_counts_unacked_fragments_and_drains_on_ack() {
    let mut c = RetransmitCache::new();
    let now = clock_start();
    assert_eq!(c.bytes_outstanding(), 0, "an empty cache holds nothing");

    let k1 = EmitKey::new(1, 0, 0, 0);
    let k2 = EmitKey::new(1, 0, 1, 0);
    c.insert(k1, mk_entry(now));
    c.insert(k2, mk_entry(now));
    assert_eq!(
        c.bytes_outstanding(),
        6,
        "both entries' fragments are in flight"
    );

    let k3 = EmitKey::new(2, 0, 0, 0);
    c.insert(
        k3,
        CacheEntry {
            fragments: FragmentList::of(vec![vec![0; 10], vec![0; 5]]),
            wire_seqs: WireSeqList::of(vec![1, 2]),
            ..mk_entry(now)
        },
    );
    assert_eq!(c.bytes_outstanding(), 21);

    c.remove(&k3);
    c.remove(&k2);
    assert_eq!(c.bytes_outstanding(), 3, "ACKed entries stop counting");
    c.remove(&k1);
    assert_eq!(c.bytes_outstanding(), 0, "a drained cache holds nothing");
}

#[test]
fn insert_lookup_remove_roundtrip() {
    let mut c = RetransmitCache::new();
    let k = EmitKey::new(1, 2, 3, 4);
    let now = clock_start();
    c.insert(k, mk_entry(now));
    assert!(c.get(&k).is_some());
    assert_eq!(c.len(), 1);
    assert!(c.remove(&k).is_some());
    assert!(c.is_empty());
}

#[test]
fn cancel_for_tile_drops_matching_only() {
    let mut c = RetransmitCache::new();
    let now = clock_start();
    c.insert(EmitKey::new(1, 5, 5, 0), mk_entry(now));
    c.insert(EmitKey::new(2, 5, 5, 0), mk_entry(now));
    c.insert(EmitKey::new(1, 5, 6, 0), mk_entry(now));
    c.insert(EmitKey::new(1, 6, 5, 0), mk_entry(now));
    c.cancel_for_tile(5, 5);
    assert!(c.get(&EmitKey::new(1, 5, 5, 0)).is_none());
    assert!(c.get(&EmitKey::new(2, 5, 5, 0)).is_none());
    assert!(c.get(&EmitKey::new(1, 5, 6, 0)).is_some());
    assert!(c.get(&EmitKey::new(1, 6, 5, 0)).is_some());
    assert_eq!(c.len(), 2);
}

#[test]
fn has_entries_for_tile_reflects_live_entries_only() {
    let now = clock_start();
    let mut c = RetransmitCache::new();
    let k = EmitKey {
        frame_seq: 7,
        tile_x: 3,
        tile_y: 4,
        pass_idx: 0,
    };
    assert!(!c.has_entries_for_tile(3, 4));
    c.insert(k, mk_entry(now));
    assert!(c.has_entries_for_tile(3, 4));
    assert!(!c.has_entries_for_tile(3, 5));
    c.remove(&k);
    assert!(!c.has_entries_for_tile(3, 4));
}

#[test]
fn cache_grows_past_capacity_without_eviction() {
    let now = clock_start();
    let mut c = RetransmitCache::new();
    let target = CACHE_CAPACITY * 2;
    for i in 0..(target as u32) {
        let k = EmitKey {
            frame_seq: i,
            tile_x: 0,
            tile_y: 0,
            pass_idx: 0,
        };
        c.insert(k, mk_entry(now));
    }
    assert_eq!(c.len(), target);
    assert_eq!(
        c.stats.lru_eviction, 0,
        "no LRU eviction — entries stay until cancel/clear"
    );
    let first = EmitKey {
        frame_seq: 0,
        tile_x: 0,
        tile_y: 0,
        pass_idx: 0,
    };
    assert!(c.get(&first).is_some());
}

#[test]
fn clear_drops_all_entries() {
    let now = clock_start();
    let mut c = RetransmitCache::new();
    for i in 0..100u32 {
        let k = EmitKey {
            frame_seq: i,
            tile_x: 0,
            tile_y: 0,
            pass_idx: 0,
        };
        c.insert(k, mk_entry(now));
    }
    assert_eq!(c.len(), 100);
    c.clear();
    assert_eq!(c.len(), 0);
    assert!(c.is_empty());
}
