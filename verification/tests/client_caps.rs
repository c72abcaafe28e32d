use ghostframe_transport::client_caps::{ClientCapabilities, HelloMsg, HELLO_MSG_TYPE};

#[test]
fn decode_enables_indices_raw() {
    let msg = HelloMsg::decode(&[HELLO_MSG_TYPE, 0x01]).unwrap();
    assert!(msg.caps.indices_raw_enabled);
    assert!(!msg.caps.supports_h264);
}

#[test]
fn decode_enables_h264() {
    let msg = HelloMsg::decode(&[HELLO_MSG_TYPE, 0x02]).unwrap();
    assert!(!msg.caps.indices_raw_enabled);
    assert!(msg.caps.supports_h264);
}

#[test]
fn decode_enables_both() {
    let msg = HelloMsg::decode(&[HELLO_MSG_TYPE, 0x03]).unwrap();
    assert!(msg.caps.indices_raw_enabled);
    assert!(msg.caps.supports_h264);
}

#[test]
fn decode_no_caps() {
    let msg = HelloMsg::decode(&[HELLO_MSG_TYPE, 0x00]).unwrap();
    assert!(!msg.caps.indices_raw_enabled);
    assert!(!msg.caps.supports_h264);
}

#[test]
fn decode_ignores_reserved_bits() {
    let msg = HelloMsg::decode(&[HELLO_MSG_TYPE, 0xFC]).unwrap();
    assert!(!msg.caps.indices_raw_enabled);
    assert!(!msg.caps.supports_h264);
}

#[test]
fn client_caps_decode_too_short() {
    assert!(HelloMsg::decode(&[]).is_none());
    assert!(HelloMsg::decode(&[HELLO_MSG_TYPE]).is_none());
}

#[test]
fn client_caps_decode_wrong_msg_type() {
    assert!(HelloMsg::decode(&[0x01, 0x01]).is_none());
}

#[test]
fn roundtrip_indices_raw_only() {
    let msg = HelloMsg {
        caps: ClientCapabilities {
            indices_raw_enabled: true,
            supports_h264: false,
        },
    };
    let mut buf = Vec::new();
    msg.encode(&mut buf);
    assert_eq!(buf, vec![HELLO_MSG_TYPE, 0x01]);
    assert_eq!(HelloMsg::decode(&buf), Some(msg));
}

#[test]
fn roundtrip_h264_only() {
    let msg = HelloMsg {
        caps: ClientCapabilities {
            indices_raw_enabled: false,
            supports_h264: true,
        },
    };
    let mut buf = Vec::new();
    msg.encode(&mut buf);
    assert_eq!(buf, vec![HELLO_MSG_TYPE, 0x02]);
    assert_eq!(HelloMsg::decode(&buf), Some(msg));
}

#[test]
fn roundtrip_both() {
    let msg = HelloMsg {
        caps: ClientCapabilities {
            indices_raw_enabled: true,
            supports_h264: true,
        },
    };
    let mut buf = Vec::new();
    msg.encode(&mut buf);
    assert_eq!(buf, vec![HELLO_MSG_TYPE, 0x03]);
    assert_eq!(HelloMsg::decode(&buf), Some(msg));
}
