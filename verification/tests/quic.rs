use ghostframe_transport::quic::{
    datagram_send_buffer_bytes, next_timeout, timer_is_due, CertInfo, CERT_VALIDITY_DAYS,
};
use ghostframe_transport::time::Instant;

#[test]
fn can_create_endpoint() {
    let names = vec!["localhost".to_string(), "127.0.0.1".to_string()];
    let params = rcgen::CertificateParams::new(names).unwrap();
    let key_pair = rcgen::KeyPair::generate().unwrap();
    let cert = params.self_signed(&key_pair).unwrap();
    let hash = &CertInfo::of_certificate(cert.der()).sha256_hex;
    assert_eq!(hash.len(), 64);
    assert!(
        hash.chars().all(|c| c.is_ascii_hexdigit()),
        "cert hash should be pure hex, got: {hash}"
    );
}

#[test]
fn defaults_to_16_mib() {
    assert_eq!(datagram_send_buffer_bytes(None), 16 * 1024 * 1024);
}

#[test]
fn env_override_is_honoured() {
    assert_eq!(datagram_send_buffer_bytes(Some("1048576")), 1024 * 1024);
}

#[test]
fn nonsense_values_fall_back_rather_than_producing_a_zero_buffer() {
    for bad in ["0", "-1", "lots", ""] {
        assert_eq!(
            datagram_send_buffer_bytes(Some(bad)),
            16 * 1024 * 1024,
            "{bad:?} should fall back to the default"
        );
    }
}

#[test]
fn a_fingerprint_is_the_sha256_in_hex() {
    assert_eq!(
        CertInfo::of_certificate(b"abc").sha256_hex,
        "ba7816bf8f01cfea414140de5dae2223b00361a396177a9cb410ff61f20015ad"
    );
    assert_eq!(
        CertInfo::of_certificate(b"").sha256_hex,
        "e3b0c44298fc1c149afbf4c8996fb92427ae41e4649b934ca495991b7852b855"
    );
}

#[test]
fn deadlines_come_in_order() {
    {
        let at = |n: u128| Some(Instant::from_nanos(n));
        assert_eq!(next_timeout(&[]), None);
        assert_eq!(next_timeout(&[None, None]), None);
        assert_eq!(next_timeout(&[at(9), None, at(3), at(5)]), at(3));
    }

    {
        let now = Instant::from_nanos(10);
        assert!(timer_is_due(Some(Instant::from_nanos(10)), now));
        assert!(!timer_is_due(Some(Instant::from_nanos(11)), now));
        assert!(!timer_is_due(None, now));
    }
}

#[test]
fn certificates_are_short_enough_to_be_pinned() {
    assert!(CERT_VALIDITY_DAYS <= 14);
}
