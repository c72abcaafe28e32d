use bytes::BytesMut;
use ghostframe_transport::webtransport::{
    ConnectReply, SettingsReply, StreamDir, WebTransportServer, RESPONSE_LEN,
};
use web_transport_proto::{ConnectResponse, Settings, VarInt};

fn encode_varint(v: u64) -> Vec<u8> {
    let mut buf = BytesMut::new();
    VarInt::from_u64(v).unwrap().encode(&mut buf);
    buf.to_vec()
}

fn decode_varint(data: &[u8]) -> (u64, &[u8]) {
    let mut slice = data;
    let v = VarInt::decode(&mut slice).unwrap();
    (v.into_inner(), slice)
}

#[test]
fn new_is_disconnected() {
    let wt = WebTransportServer::new();
    assert!(!wt.is_connected());
    assert!(!wt.settings_sent);
    assert!(!wt.peer_settings_received);
    assert!(wt.our_control_stream.is_none());
    assert!(wt.peer_control_stream.is_none());
    assert!(wt.session_stream.is_none());
}

#[test]
fn default_is_same_as_new() {
    let a = WebTransportServer::new();
    let b = WebTransportServer::default();
    assert_eq!(a.is_connected(), b.is_connected());
}

#[test]
fn varint_roundtrip_small() {
    for v in [0u64, 1, 62, 63, 64, 127, 255] {
        let encoded = encode_varint(v);
        let (decoded, rest) = decode_varint(&encoded);
        assert_eq!(decoded, v, "roundtrip failed for {v}");
        assert!(rest.is_empty());
    }
}

#[test]
fn varint_roundtrip_medium() {
    for v in [256u64, 1000, 16383] {
        let encoded = encode_varint(v);
        assert_eq!(encoded.len(), 2, "expected 2-byte encoding for {v}");
        let (decoded, rest) = decode_varint(&encoded);
        assert_eq!(decoded, v);
        assert!(rest.is_empty());
    }
}

#[test]
fn varint_roundtrip_large() {
    for v in [16384u64, 1_000_000, 1_073_741_823] {
        let encoded = encode_varint(v);
        assert_eq!(encoded.len(), 4, "expected 4-byte encoding for {v}");
        let (decoded, rest) = decode_varint(&encoded);
        assert_eq!(decoded, v);
        assert!(rest.is_empty());
    }
}

#[test]
fn quarter_stream_id_encoding() {
    let stream_id_raw: u64 = 4;
    let quarter_id = stream_id_raw / 4;
    let encoded = encode_varint(quarter_id);
    let (decoded, _) = decode_varint(&encoded);
    assert_eq!(decoded, 1);
}

#[test]
fn settings_encode_contains_required_fields() {
    let mut settings = Settings::default();
    settings.enable_webtransport(1);

    let mut buf = BytesMut::new();
    settings.encode(&mut buf);
    let wire = buf.to_vec();

    assert_eq!(
        wire[0], 0x00,
        "first byte should be CONTROL stream type 0x00"
    );

    let mut slice: &[u8] = &wire;
    let decoded = Settings::decode(&mut slice).unwrap();
    assert!(
        decoded.supports_webtransport() >= 1,
        "decoded settings must report WebTransport support"
    );
}

#[test]
fn settings_encode_roundtrip() {
    let mut settings = Settings::default();
    settings.enable_webtransport(1);

    let mut buf = BytesMut::new();
    settings.encode(&mut buf);

    let mut slice: &[u8] = &buf;
    let decoded = Settings::decode(&mut slice).unwrap();
    assert_eq!(decoded.supports_webtransport(), 1);
}

#[test]
fn settings_partial_decode_returns_unexpected_end() {
    let mut settings = Settings::default();
    settings.enable_webtransport(1);
    let mut buf = BytesMut::new();
    settings.encode(&mut buf);
    let full = buf.to_vec();

    for prefix_len in 1..full.len() {
        let partial = &full[..prefix_len];
        let mut slice: &[u8] = partial;
        let result = Settings::decode(&mut slice);
        assert!(
            matches!(
                result,
                Err(web_transport_proto::SettingsError::UnexpectedEnd
                    | web_transport_proto::SettingsError::InvalidSize)
            ),
            "expected UnexpectedEnd or InvalidSize for prefix_len={prefix_len}, got {result:?}"
        );
    }
}

fn peer_settings() -> Vec<u8> {
    let mut settings = Settings::default();
    settings.enable_webtransport(1);
    let mut buf = BytesMut::new();
    settings.encode(&mut buf);
    buf.to_vec()
}

fn field(out: &mut Vec<u8>, name: &str, value: &str) {
    assert!(name.len() >= 7 && name.len() < 134 && value.len() < 127);
    out.push(0x27);
    out.push((name.len() - 7) as u8);
    out.extend_from_slice(name.as_bytes());
    out.push(value.len() as u8);
    out.extend_from_slice(value.as_bytes());
}

fn connect_request() -> Vec<u8> {
    let mut fields = vec![0x00, 0x00, 0xCF, 0xD7, 0xC1];
    field(&mut fields, ":authority", "localhost");
    field(&mut fields, ":protocol", "webtransport");
    let mut frame = vec![0x01, fields.len() as u8];
    assert!(fields.len() < 64);
    frame.extend_from_slice(&fields);
    frame
}

fn connected_on(sid: u64) -> WebTransportServer {
    let mut wt = WebTransportServer::new();
    wt.on_stream_opened(sid, StreamDir::Bi);
    let response = wt.on_stream_readable(sid, &connect_request()).expect("200");
    wt.on_response_written(sid, Some(response.len()));
    wt
}

#[test]
fn our_settings_are_sent_once_and_offer_one_session() {
    let mut wt = WebTransportServer::new();
    let wire = wt.on_new_connection().expect("settings");
    assert_eq!(wire[0], 0x00);
    let mut slice: &[u8] = &wire;
    assert_eq!(Settings::decode(&mut slice).unwrap().supports_webtransport(), 1);
    wt.on_settings_written(3);
    assert!(wt.settings_sent);
    assert_eq!(wt.our_control_stream, Some(3));
    assert!(wt.on_new_connection().is_none());
}

#[test]
fn peer_settings_arrive_in_pieces() {
    let wire = peer_settings();
    let mut wt = WebTransportServer::new();
    for (i, byte) in wire.iter().enumerate() {
        assert!(!wt.peer_settings_received, "byte {i}");
        assert!(wt.on_stream_readable(2, &[*byte]).is_none());
    }
    assert!(wt.peer_settings_received);
    assert_eq!(wt.peer_control_stream, Some(2));
    assert_eq!(wt.all_known_stream_ids(), vec![2]);
}

#[test]
fn a_request_in_pieces_opens_the_session() {
    let request = connect_request();
    let mut wt = WebTransportServer::new();
    wt.on_stream_opened(4, StreamDir::Bi);
    assert_eq!(wt.all_known_stream_ids(), vec![4]);
    let (head, last) = request.split_at(request.len() - 1);
    for byte in head {
        assert!(wt.on_stream_readable(4, &[*byte]).is_none());
    }
    let response = wt.on_stream_readable(4, last).expect("200");
    assert!(!wt.is_connected(), "not before the response is out");
    wt.on_response_written(4, Some(response.len()));
    assert!(wt.is_connected());
    assert_eq!(wt.session_stream, Some(4));
    assert_eq!(wt.all_known_stream_ids(), vec![4]);
}

#[test]
fn the_response_is_the_one_the_peer_expects() {
    let mut wt = WebTransportServer::new();
    let response = wt.on_stream_readable(0, &connect_request()).expect("200");
    assert_eq!(response.len(), RESPONSE_LEN);
    let mut expected = vec![0x01, 0x29, 0x00, 0x00, 0xd9, 0x27, 0x15];
    expected.extend_from_slice(b"sec-webtransport-http3-draft");
    expected.push(7);
    expected.extend_from_slice(b"draft02");
    assert_eq!(response, expected);
    let mut slice: &[u8] = &response;
    assert!(ConnectResponse::decode(&mut slice).is_ok());
}

#[test]
fn a_short_response_leaves_the_request_waiting() {
    let mut wt = WebTransportServer::new();
    let request = connect_request();
    assert!(wt.on_stream_readable(0, &request).is_some());
    wt.on_response_written(0, Some(10));
    wt.on_response_written(0, None);
    assert!(!wt.is_connected());
    let response = wt.on_stream_readable(0, &[0x00]).expect("asked again");
    wt.on_response_written(0, Some(response.len()));
    assert!(wt.is_connected());
}

#[test]
fn something_else_than_a_request_is_forgotten() {
    let mut wt = WebTransportServer::new();
    wt.on_stream_opened(0, StreamDir::Bi);
    assert!(wt.on_stream_readable(0, &[0x00, 0x01, 0x41]).is_none());
    assert!(wt.all_known_stream_ids().is_empty());
    assert!(!wt.is_connected());
}

#[test]
fn datagrams_carry_the_quarter_stream_id_or_are_refused() {
    {
        for (sid, prefix) in [
            (0u64, vec![0u8]),
            (4, vec![1]),
            (256, vec![0x40, 0x40]),
            (65_536, vec![0x80, 0x00, 0x40, 0x00]),
            (1 << 33, vec![0xC0, 0, 0, 0, 0x80, 0, 0, 0]),
        ] {
            let wt = connected_on(sid);
            let datagram = wt.send_datagram(&[7, 8, 9]).expect("connected");
            assert_eq!(&datagram[..prefix.len()], &prefix[..], "session {sid}");
            assert_eq!(&datagram[prefix.len()..], &[7, 8, 9]);
            assert_eq!(wt.recv_datagram(&datagram), Some(vec![7, 8, 9]));
        }
    }

    {
        let wt = connected_on(0);
        assert_eq!(wt.recv_datagram(&[]), None);
        assert_eq!(wt.recv_datagram(&[0x40]), None);
        assert_eq!(wt.recv_datagram(&[0x00]), Some(vec![]));
    }

    {
        let wt = WebTransportServer::new();
        assert_eq!(wt.send_datagram(&[1]), None);
        assert_eq!(wt.recv_datagram(&[0, 1]), None);
    }
}

#[test]
fn other_streams_become_feedback() {
    {
        let mut wt = connected_on(0);
        wt.on_stream_opened(4, StreamDir::Bi);
        assert!(wt.on_stream_readable(4, &[1, 2]).is_none());
        assert!(wt.on_stream_readable(8, &[3]).is_none());
        assert!(wt.on_stream_readable(0, &[9, 9]).is_none(), "the session itself is not");
        assert!(wt.on_stream_readable(4, &[]).is_none());
        assert_eq!(wt.drain_feedback(), vec![vec![1, 2], vec![3]]);
        assert!(wt.drain_feedback().is_empty());
        assert_eq!(wt.session_stream, Some(0));
    }

    {
        let mut wt = WebTransportServer::new();
        assert!(wt.on_stream_readable(6, &[0x02, 0x55]).is_none());
        assert!(wt.all_known_stream_ids().is_empty());
        assert!(!wt.peer_settings_received);
        assert!(wt.on_stream_readable(10, &[0x00, 0x07, 0x00]).is_none());
        assert!(wt.all_known_stream_ids().is_empty(), "a control stream without settings");
    }
}

#[test]
fn each_reading_of_a_stream_has_its_effect() {
    let mut wt = WebTransportServer::new();
    wt.absorb_settings(2, SettingsReply::Incomplete);
    assert!(!wt.peer_settings_received);
    wt.absorb_settings(2, SettingsReply::Malformed);
    wt.absorb_settings(2, SettingsReply::OtherStream);
    assert!(!wt.peer_settings_received);
    wt.absorb_settings(2, SettingsReply::Sessions(0));
    assert!(wt.peer_settings_received);
    assert!(wt.absorb_connect(0, ConnectReply::Request));
    assert!(!wt.absorb_connect(0, ConnectReply::Incomplete));
    assert!(!wt.absorb_connect(0, ConnectReply::Malformed));
}
