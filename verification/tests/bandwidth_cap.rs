use ghostframe_transport::bandwidth_cap::BandwidthCap;
use ghostframe_transport::time::Instant;

fn at_ms(ms: u128) -> Instant {
    Instant::from_nanos(ms * 1_000_000)
}

#[test]
fn consumes_until_empty_then_refills() {
    let mut cap = BandwidthCap::new(10_000, at_ms(0));
    assert!(cap.try_consume(10_000, at_ms(0)));
    assert!(!cap.try_consume(10_000, at_ms(0)));
    assert!(cap.try_consume(5_000, at_ms(600)));
}

#[test]
fn new_stores_the_configured_rate() {
    let cap = BandwidthCap::new(1_250_000, at_ms(0));
    assert_eq!(cap.bytes_per_sec(), 1_250_000);
    assert_eq!(cap.tokens_bytes(), 1_250_000, "bucket starts full");
}

#[test]
fn a_refused_request_takes_nothing() {
    {
        let mut cap = BandwidthCap::new(1_000, at_ms(0));
        assert!(cap.try_consume(900, at_ms(0)));
        assert!(!cap.try_consume(101, at_ms(0)));
        assert!(cap.try_consume(100, at_ms(0)));
    }

    {
        let mut cap = BandwidthCap::new(10_000, at_ms(0));
        assert!(!cap.try_consume(10_001, at_ms(3_600_000)));
        assert!(cap.try_consume(10_000, at_ms(3_600_000)));
        assert_eq!(cap.tokens_bytes(), 0);
    }
}
