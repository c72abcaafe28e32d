use ghostframe_transport::reliable_emitter::{
    EmitKey, CACHE_CAPACITY, FEC_GROUP_SIZE_K, FEC_PARITY_PER_GROUP_R, PARITY_INTERLEAVE_OFFSET,
};
use std::collections::HashMap;

#[test]
fn knob_invariants() {
    assert!(FEC_GROUP_SIZE_K >= 2);
    assert!(FEC_PARITY_PER_GROUP_R >= 1);
    assert!(PARITY_INTERLEAVE_OFFSET == 20);
    assert!(CACHE_CAPACITY.is_power_of_two() || CACHE_CAPACITY >= 1024);
}

#[test]
fn emit_key_hashable_and_ordered() {
    let mut m = HashMap::new();
    let k1 = EmitKey {
        frame_seq: 1,
        tile_x: 2,
        tile_y: 3,
        pass_idx: 4,
    };
    let k2 = EmitKey {
        frame_seq: 1,
        tile_x: 2,
        tile_y: 3,
        pass_idx: 4,
    };
    let k3 = EmitKey {
        frame_seq: 1,
        tile_x: 2,
        tile_y: 3,
        pass_idx: 5,
    };
    m.insert(k1, "a");
    assert_eq!(m.get(&k2), Some(&"a"));
    assert!(!m.contains_key(&k3));
}
