use ghostframe_transport::reliable_emitter::emission_queue::{Emission, EmissionQueue};
use ghostframe_transport::reliable_emitter::{
    END_OF_STREAM_PARITY_FLUSH_MS, PARITY_INTERLEAVE_OFFSET,
};
use ghostframe_transport::time::{Duration, Instant};

fn clock_start() -> Instant {
    Instant::from_nanos(1_000_000_000_000)
}

#[test]
fn source_only_pops_in_order() {
    let mut q = EmissionQueue::new();
    let t = clock_start();
    q.push_source(vec![1]);
    q.push_source(vec![2]);
    assert!(matches!(q.pop(2, t), Some(Emission::Source(_))));
    assert!(matches!(q.pop(2, t), Some(Emission::Source(_))));
    assert!(q.pop(2, t).is_none());
}

#[test]
fn parity_emits_after_offset_wire_seq() {
    let mut q = EmissionQueue::new();
    let t = clock_start();
    q.push_source(vec![0]);
    q.schedule_parity(PARITY_INTERLEAVE_OFFSET, vec![0xAA]);
    let e = q.pop(1, t).unwrap();
    assert!(matches!(e, Emission::Source(_)));
    assert!(matches!(q.pop(5, t), None | Some(Emission::Source(_))));
    let e = q.pop(20, t).unwrap();
    assert!(matches!(e, Emission::Parity(b) if b == vec![0xAA]));
}

#[test]
fn end_of_stream_flush_releases_parity_after_idle() {
    let mut q = EmissionQueue::new();
    let t0 = clock_start();
    q.schedule_parity(PARITY_INTERLEAVE_OFFSET, vec![0xBB]);
    assert!(q.pop(0, t0).is_none());
    let t1 = t0.plus(Duration::from_millis(END_OF_STREAM_PARITY_FLUSH_MS + 1));
    let e = q.pop(0, t1).expect("flushed");
    assert!(matches!(e, Emission::Parity(_)));
    assert!(q.is_empty());
}

#[test]
fn a_queue_gives_sources_in_order_and_no_parity_early() {
    fn bytes(e: Option<Emission>) -> Option<(bool, Vec<u8>)> {
        e.map(|e| match e {
            Emission::Source(b) => (true, b),
            Emission::Parity(b) => (false, b),
        })
    }
    let mut q = EmissionQueue::new();
    let t = clock_start();
    q.push_source(vec![1]);
    q.schedule_parity(9, vec![0xB0]);
    q.schedule_parity(7, vec![0xA0]);
    q.push_source(vec![2]);
    assert_eq!(bytes(q.pop(6, t)), Some((true, vec![1])));
    assert_eq!(bytes(q.pop(7, t)), Some((true, vec![2])));
    q.push_source(vec![3]);
    assert_eq!(bytes(q.pop(8, t)), Some((false, vec![0xA0])));
    assert_eq!(bytes(q.pop(8, t)), Some((true, vec![3])));
    assert_eq!(bytes(q.pop(8, t)), None);
    let early = t.plus(Duration::from_millis(END_OF_STREAM_PARITY_FLUSH_MS - 1));
    assert_eq!(bytes(q.pop(8, early)), None);
    q.push_source(vec![4]);
    let late = t.plus(Duration::from_millis(END_OF_STREAM_PARITY_FLUSH_MS));
    assert_eq!(bytes(q.pop(8, late)), Some((true, vec![4])));
    assert_eq!(bytes(q.pop(8, late)), None, "a source starts the wait anew");
    let later = late.plus(Duration::from_millis(END_OF_STREAM_PARITY_FLUSH_MS));
    assert_eq!(bytes(q.pop(8, later)), Some((false, vec![0xB0])));
    assert_eq!(bytes(q.pop(100, later)), None);
    assert!(q.is_empty());
}
