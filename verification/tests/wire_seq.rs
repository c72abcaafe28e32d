use ghostframe_transport::reliable_emitter::wire_seq::WireSeqAllocator;

#[test]
fn allocates_monotonically_from_zero() {
    let mut a = WireSeqAllocator::new();
    assert_eq!(a.allocate(), 0);
    assert_eq!(a.allocate(), 1);
    assert_eq!(a.allocate(), 2);
}

#[test]
fn peek_does_not_advance() {
    let mut a = WireSeqAllocator::new();
    let _ = a.allocate();
    assert_eq!(a.peek(), 1);
    assert_eq!(a.peek(), 1);
    assert_eq!(a.allocate(), 1);
}

#[test]
fn wraps_at_u32_max() {
    let mut a = WireSeqAllocator { next: u32::MAX };
    assert_eq!(a.allocate(), u32::MAX);
    assert_eq!(a.allocate(), 0);
    assert_eq!(a.allocate(), 1);
}
