use ghostframe_transport::reliable_emitter::parity::{xor_payloads, GroupBuilder, GroupResult};
use ghostframe_transport::reliable_emitter::FEC_GROUP_SIZE_K;

#[test]
fn xor_of_two_equal_length_buffers_recovers_either() {
    let a = vec![0x12, 0x34, 0x56];
    let b = vec![0xAB, 0xCD, 0xEF];
    let parity = xor_payloads(&[&a, &b]);
    let recovered_a = xor_payloads(&[&parity, &b]);
    assert_eq!(recovered_a, a);
}

#[test]
fn xor_left_pads_shorter_slices() {
    let a = vec![0xFF];
    let b = vec![0x11, 0x22, 0x33];
    let parity = xor_payloads(&[&a, &b]);
    assert_eq!(parity.len(), 3);
    assert_eq!(parity, vec![0x11, 0x22, 0xCC]);
}

#[test]
fn empty_group_returns_empty_parity() {
    assert_eq!(xor_payloads(&[]), Vec::<u8>::new());
}

#[test]
fn round_trip_three_sources() {
    let a = vec![1, 2, 3, 4];
    let b = vec![10, 20, 30, 40];
    let c = vec![100, 110, 120, 130];
    let parity = xor_payloads(&[&a, &b, &c]);
    let recovered_c = xor_payloads(&[&parity, &a, &b]);
    assert_eq!(recovered_c, c);
}

#[test]
fn group_builder_fires_after_k_sources() {
    let mut g = GroupBuilder::new(FEC_GROUP_SIZE_K);
    for i in 0..FEC_GROUP_SIZE_K - 1 {
        assert!(g.add(0, &[i as u8]).is_none(), "no fire before K");
    }
    let result = g.add(0, &[99]);
    let Some(GroupResult {
        group_first_wire_seq,
        k,
        parity,
        first_len,
    }) = result
    else {
        panic!("expected fire");
    };
    assert_eq!(k as usize, FEC_GROUP_SIZE_K);
    assert_eq!(group_first_wire_seq, 0);
    assert_eq!(first_len, 1);
    assert!(!parity.is_empty());
    assert!(g.add(0, &[1]).is_none());
}

#[test]
fn group_builder_tracks_first_wire_seq() {
    let mut g = GroupBuilder::new(3);
    assert!(g.add(100, &[1]).is_none());
    assert!(g.add(101, &[2]).is_none());
    let r = g.add(102, &[3]).unwrap();
    assert_eq!(r.group_first_wire_seq, 100);
}
