use ghostframe_transport::scheduler::slab::Handle;
use ghostframe_transport::scheduler::slots::SlotMap;

#[test]
fn index_is_row_major() {
    let map = SlotMap::new(4, 3);
    assert_eq!(map.index(0, 0), Some(0));
    assert_eq!(map.index(3, 0), Some(3));
    assert_eq!(map.index(0, 1), Some(4));
    assert_eq!(map.index(3, 2), Some(11));
    assert_eq!(map.index(4, 0), None, "x out of range");
    assert_eq!(map.index(0, 3), None, "y out of range");
}

#[test]
fn acking_sets_only_that_pass() {
    let mut map = SlotMap::new(2, 2);
    map.record_ack(1, 1, 0, 3);
    assert_eq!(map.acked_mask(1, 1, 0), 0b1000);
    map.record_ack(1, 1, 0, 0);
    assert_eq!(map.acked_mask(1, 1, 0), 0b1001);
}

#[test]
fn an_ack_for_a_stale_generation_is_ignored() {
    let mut map = SlotMap::new(2, 2);
    map.record_ack(0, 0, 0, 1);
    map.bump_generation(0, 0);
    assert_eq!(map.acked_mask(0, 0, 1), 0, "bump clears the mask");
    map.record_ack(0, 0, 0, 2);
    assert_eq!(
        map.acked_mask(0, 0, 1),
        0,
        "an ack naming the old generation must not touch the new one"
    );
}

#[test]
fn bump_advances_the_generation_and_wraps_at_four_bits() {
    let mut map = SlotMap::new(1, 1);
    assert_eq!(map.generation(0, 0), 0);
    for expected in 1..=15u8 {
        assert_eq!(map.bump_generation(0, 0), expected);
    }
    assert_eq!(map.bump_generation(0, 0), 0, "4-bit generation wraps");
}

#[test]
fn fully_acked_needs_every_pass_below_max() {
    let mut map = SlotMap::new(1, 1);
    for p in 0..13u8 {
        map.record_ack(0, 0, 0, p);
    }
    assert!(!map.fully_acked(0, 0, 0, 14));
    map.record_ack(0, 0, 0, 13);
    assert!(map.fully_acked(0, 0, 0, 14));
}

#[test]
fn unacked_mask_is_the_complement_below_max() {
    let mut map = SlotMap::new(1, 1);
    assert_eq!(map.unacked_mask(0, 0, 0, 14), 0x3FFF);
    map.record_ack(0, 0, 0, 0);
    assert_eq!(map.unacked_mask(0, 0, 0, 14), 0x3FFE);
}

#[test]
fn handles_are_stored_and_retrieved_per_pass() {
    let mut map = SlotMap::new(1, 1);
    let h = Handle {
        index: 7,
        version: 1,
    };
    map.set_handle(0, 0, 2, Some(h));
    assert_eq!(map.handle(0, 0, 2), Some(h));
    assert_eq!(map.handle(0, 0, 3), None, "other passes are unaffected");
    map.set_handle(0, 0, 2, None);
    assert_eq!(map.handle(0, 0, 2), None);
}

#[test]
fn acks_are_new_once_and_counted_once() {
    {
        let mut map = SlotMap::new(2, 2);
        assert!(map.is_new_ack(1, 0, 0, 5));
        map.record_ack(1, 0, 0, 5);
        assert!(!map.is_new_ack(1, 0, 0, 5));
        assert!(map.is_new_ack(1, 0, 0, 6));
        assert!(!map.is_new_ack(1, 0, 1, 6), "another generation");
        assert!(!map.is_new_ack(2, 0, 0, 6), "off the grid");
    }

    {
        let mut map = SlotMap::new(1, 1);
        assert_eq!(map.acked_count(0, 0, 0), 0);
        map.record_ack(0, 0, 0, 3);
        map.record_ack(0, 0, 0, 3);
        map.record_ack(0, 0, 0, 13);
        assert_eq!(map.acked_count(0, 0, 0), 2);
        assert_eq!(map.acked_count(0, 0, 1), 0);
    }

    {
        let mut map = SlotMap::new(1, 1);
        map.bump_generation(0, 0);
        map.record_ack(0, 0, 1, 2);
        map.clear_handles();
        assert_eq!(map.acked_mask(0, 0, 1), 0b100);
        assert_eq!(map.acked_mask(0, 0, 0), 0);
    }
}

