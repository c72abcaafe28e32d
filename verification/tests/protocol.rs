use ghostframe_transport::fec;
use ghostframe_transport::protocol::{
    build_frame_dimensions_datagram, build_parity_datagrams, classify_inbound,
    decode_frame_datagram, decode_tile_datagram, fragment_frame, fragment_tile, is_tile_datagram,
    Codec, DatagramHeader, FrameHeader, InboundKind, NackMessage, ProtocolError,
    TileFragmentInputs, TileHeader, TileNackEntry, TileNackEnvelope, TileParityEnvelope,
    DATAGRAM_HEADER_SIZE, FRAME_DIMENSIONS_SENTINEL_X, FRAME_DIMENSIONS_SENTINEL_Y,
    FRAME_HEADER_SIZE, NACK_SIZE, TILE_DATAGRAM_FLAG, TILE_HEADER_SIZE, TILE_NACK_ENVELOPE,
    TILE_PARITY_ENVELOPE,
};

#[test]
fn datagram_header_roundtrip() {
    let original = DatagramHeader {
        frame_seq: 0xDEAD_BEEF,
        frag_idx: 3,
        frag_total: 7,
        wire_seq: 0xCAFE_F00D,
        timestamp_us: 123_456_789,
    };
    let mut buf = Vec::new();
    original.encode(&mut buf);
    assert_eq!(buf.len(), DATAGRAM_HEADER_SIZE);
    let decoded = DatagramHeader::decode(&buf).unwrap();
    assert_eq!(decoded, original);
}

#[test]
fn datagram_header_decode_short_input() {
    let short = vec![0u8; 15];
    let result = DatagramHeader::decode(&short);
    assert_eq!(
        result,
        Err(ProtocolError::TooShort {
            expected: DATAGRAM_HEADER_SIZE,
            got: 15
        })
    );
}

#[test]
fn tile_header_roundtrip() {
    let original = TileHeader {
        tile_x: 5,
        tile_y: 3,
        codec: Codec::H264,
        lz4: false,
        generation: 10,
        pass: 0,
        payload_len: 99_999,
    };
    let mut buf = Vec::new();
    original.encode(&mut buf);
    assert_eq!(buf.len(), TILE_HEADER_SIZE);
    let decoded = TileHeader::decode(&buf).unwrap();
    assert_eq!(decoded, original);
}

#[test]
fn tile_header_codec_lz4_packing() {
    let th = TileHeader {
        tile_x: 0,
        tile_y: 0,
        codec: Codec::Raw,
        lz4: true,
        generation: 0,
        pass: 0,
        payload_len: 0,
    };
    let mut buf = Vec::new();
    th.encode(&mut buf);
    assert_eq!(buf[2], 9u8);

    let decoded = TileHeader::decode(&buf).unwrap();
    assert_eq!(decoded.codec, Codec::Raw);
    assert!(decoded.lz4);
}

#[test]
fn tile_header_gen_pass_packing_roundtrip() {
    let original = TileHeader {
        tile_x: 1,
        tile_y: 2,
        codec: Codec::Solid,
        lz4: false,
        generation: 5,
        pass: 9,
        payload_len: 4,
    };
    let mut buf = Vec::new();
    original.encode(&mut buf);
    assert_eq!(buf[3], 0x59);
    let decoded = TileHeader::decode(&buf).unwrap();
    assert_eq!(decoded.generation, 5);
    assert_eq!(decoded.pass, 9);
    assert_eq!(decoded, original);
}

#[test]
fn tile_header_decode_max_nibble_values() {
    let buf = vec![0, 0, 0, 0xFF, 0, 0, 0, 4];
    let decoded = TileHeader::decode(&buf).unwrap();
    assert_eq!(decoded.generation, 15);
    assert_eq!(decoded.pass, 15);
}

#[test]
fn tile_header_encode_clips_generation_and_pass_to_4_bits() {
    let h = TileHeader {
        tile_x: 0,
        tile_y: 0,
        codec: Codec::Raw,
        lz4: false,
        generation: 0x1F,
        pass: 0x1F,
        payload_len: 0,
    };
    let mut buf = Vec::new();
    h.encode(&mut buf);
    assert_eq!(buf[3], 0xFF, "both nibbles must clip to 0x0F");
    let decoded = TileHeader::decode(&buf).unwrap();
    assert_eq!(decoded.generation, 15);
    assert_eq!(decoded.pass, 15);
}

#[test]
fn tile_header_legacy_generation_zero_decodes_as_pass_zero() {
    let buf = vec![3, 4, 0, 0x00, 0, 0, 0, 0];
    let decoded = TileHeader::decode(&buf).unwrap();
    assert_eq!(decoded.generation, 0);
    assert_eq!(decoded.pass, 0);
}

#[test]
fn encode_tile_datagram_single_fragment() {
    let payload = vec![0xABu8; 100];
    let datagrams = fragment_tile(
        &TileFragmentInputs {
            frame_seq: 1,
            tile_x: 2,
            tile_y: 3,
            codec: Codec::Raw,
            generation: 0,
            pass: 0,
            timestamp_us: 5000,
        },
        &payload,
        1200,
    );
    assert_eq!(datagrams.len(), 1);

    let dg = &datagrams[0];
    let (dh, th, frag_payload) = decode_tile_datagram(dg).unwrap();

    assert_eq!(dh.frame_seq, 1);
    assert_eq!(dh.frag_idx, 0);
    assert_eq!(dh.frag_total, 1);
    assert_eq!(dh.timestamp_us, 5000);

    assert_eq!(th.tile_x, 2);
    assert_eq!(th.tile_y, 3);
    assert_eq!(th.codec, Codec::Raw);
    assert_eq!(th.payload_len, 100);

    assert_eq!(frag_payload, payload.as_slice());
}

#[test]
fn fragment_tile_multiple_fragments() {
    let payload: Vec<u8> = (0u8..=255).cycle().take(4096).collect();
    let max_frag = 1200;
    let datagrams = fragment_tile(
        &TileFragmentInputs {
            frame_seq: 7,
            tile_x: 0,
            tile_y: 0,
            codec: Codec::H264,
            generation: 0,
            pass: 0,
            timestamp_us: 999,
        },
        &payload,
        max_frag,
    );

    assert_eq!(datagrams.len(), 4);

    for (i, dg) in datagrams.iter().enumerate() {
        let (dh, th, _) = decode_tile_datagram(dg).unwrap();
        assert_eq!(dh.frame_seq, 7);
        assert_eq!(dh.frag_idx, i as u16);
        assert_eq!(dh.frag_total, 4);
        assert_eq!(th.payload_len, 4096);
    }

    let mut reassembled = Vec::new();
    for dg in &datagrams {
        let (_, _, frag) = decode_tile_datagram(dg).unwrap();
        reassembled.extend_from_slice(frag);
    }
    assert_eq!(reassembled, payload);
}

#[test]
fn fragment_tile_empty_payload_skip_codec() {
    let datagrams = fragment_tile(
        &TileFragmentInputs {
            frame_seq: 0,
            tile_x: 0,
            tile_y: 0,
            codec: Codec::Skip,
            generation: 0,
            pass: 0,
            timestamp_us: 0,
        },
        &[],
        1200,
    );
    assert_eq!(datagrams.len(), 1);

    let (dh, th, frag_payload) = decode_tile_datagram(&datagrams[0]).unwrap();
    assert_eq!(dh.frag_total, 1);
    assert_eq!(th.codec, Codec::Skip);
    assert_eq!(th.payload_len, 0);
    assert!(frag_payload.is_empty());
}

#[test]
fn is_parity_datagram() {
    let source = DatagramHeader {
        frame_seq: 1,
        frag_idx: 2,
        frag_total: 8,
        wire_seq: 0,
        timestamp_us: 0,
    };
    assert!(!source.is_parity());

    let parity = DatagramHeader {
        frame_seq: 1,
        frag_idx: 8,
        frag_total: 8,
        wire_seq: 0,
        timestamp_us: 0,
    };
    assert!(parity.is_parity());
}

#[test]
fn fragment_tile_with_parity_roundtrip() {
    let payload: Vec<u8> = (0u8..=255).cycle().take(4096).collect();
    let max_frag = 1200;
    let k = 4;

    let source_dgs = fragment_tile(
        &TileFragmentInputs {
            frame_seq: 7,
            tile_x: 2,
            tile_y: 3,
            codec: Codec::H264,
            generation: 0,
            pass: 0,
            timestamp_us: 999,
        },
        &payload,
        max_frag,
    );
    let frag_total = source_dgs.len();
    assert_eq!(frag_total, 4);

    let source_payloads: Vec<&[u8]> = source_dgs
        .iter()
        .map(|dg| &dg[DATAGRAM_HEADER_SIZE + TILE_HEADER_SIZE..])
        .collect();

    let parities = fec::generate_parity(&source_payloads, k);
    assert_eq!(parities.len(), 1);

    let parity_dgs =
        build_parity_datagrams(7, 2, 3, Codec::H264, 999, frag_total as u16, &parities);
    assert_eq!(parity_dgs.len(), 1);

    let (dh, th, parity_payload) = decode_tile_datagram(&parity_dgs[0]).unwrap();
    assert!(dh.is_parity());
    assert_eq!(dh.frag_idx, frag_total as u16);
    assert_eq!(dh.frag_total, frag_total as u16);
    assert_eq!(th.codec, Codec::H264);
    assert_eq!(th.tile_x, 2);
    assert_eq!(th.tile_y, 3);

    let (group_start, group_len, _xor_data) =
        fec::decode_parity_payload(parity_payload).unwrap();
    assert_eq!(group_start, 0);
    assert_eq!(group_len, 4);
}

#[test]
fn frame_header_roundtrip() {
    let original = FrameHeader {
        frame_seq: 0x0000_1234,
        frag_idx: 2,
        frag_total: 5,
        timestamp_us: 987_654_321,
        flags: 0x01,
        reserved: 0,
    };
    let mut buf = Vec::new();
    original.encode(&mut buf);
    assert_eq!(buf.len(), FRAME_HEADER_SIZE);
    let decoded = FrameHeader::decode(&buf).unwrap();
    assert_eq!(decoded, original);
    assert!(decoded.is_keyframe());
    assert!(!decoded.is_parity());
}

#[test]
fn frame_header_discriminator() {
    let fh = FrameHeader {
        frame_seq: 42,
        frag_idx: 0,
        frag_total: 1,
        timestamp_us: 0,
        flags: 0,
        reserved: 0,
    };
    let mut frame_buf = Vec::new();
    fh.encode(&mut frame_buf);
    assert!(
        !is_tile_datagram(&frame_buf),
        "frame datagram must have bit 31 = 0"
    );

    let dh = DatagramHeader {
        frame_seq: TILE_DATAGRAM_FLAG | 42,
        frag_idx: 0,
        frag_total: 1,
        wire_seq: 0,
        timestamp_us: 0,
    };
    let mut tile_buf = Vec::new();
    dh.encode(&mut tile_buf);
    tile_buf.extend_from_slice(&[0u8; TILE_HEADER_SIZE]);
    assert!(
        is_tile_datagram(&tile_buf),
        "tile datagram must have bit 31 = 1"
    );
}

#[test]
fn fragment_frame_single() {
    let payload = vec![0xCDu8; 500];
    let datagrams = fragment_frame(10, 8000, true, &payload, 1200);
    assert_eq!(datagrams.len(), 1);

    let (fh, frag_payload) = decode_frame_datagram(&datagrams[0]).unwrap();
    assert_eq!(fh.frame_seq, 10);
    assert_eq!(fh.frag_idx, 0);
    assert_eq!(fh.frag_total, 1);
    assert_eq!(fh.timestamp_us, 8000);
    assert!(fh.is_keyframe());
    assert!(!fh.is_parity());
    assert_eq!(frag_payload, payload.as_slice());
}

#[test]
fn fragment_frame_multiple() {
    let payload: Vec<u8> = (0u8..=255).cycle().take(5000).collect();
    let max_frag = 1200;
    let datagrams = fragment_frame(99, 12345, false, &payload, max_frag);

    assert_eq!(datagrams.len(), 5);

    for (i, dg) in datagrams.iter().enumerate() {
        let (fh, _) = decode_frame_datagram(dg).unwrap();
        assert_eq!(fh.frame_seq, 99);
        assert_eq!(fh.frag_idx, i as u16);
        assert_eq!(fh.frag_total, 5);
        assert_eq!(fh.timestamp_us, 12345);
        assert!(!fh.is_keyframe());
    }

    let mut reassembled = Vec::new();
    for dg in &datagrams {
        let (_, frag) = decode_frame_datagram(dg).unwrap();
        reassembled.extend_from_slice(frag);
    }
    assert_eq!(reassembled, payload);
}

#[test]
fn nack_message_roundtrip() {
    let nack = NackMessage {
        frame_seq: 42,
        frag_idx: 3,
    };
    let encoded = nack.encode();
    assert_eq!(encoded.len(), NACK_SIZE);
    let decoded = NackMessage::decode(&encoded).unwrap();
    assert_eq!(decoded, nack);
}

#[test]
fn nack_message_short_input() {
    assert!(NackMessage::decode(&[0u8; 5]).is_none());
    assert!(NackMessage::decode(&[0u8; 6]).is_some());
}

#[test]
fn datagram_header_includes_wire_seq() {
    assert_eq!(DATAGRAM_HEADER_SIZE, 16, "header changed size");

    let h = DatagramHeader {
        frame_seq: TILE_DATAGRAM_FLAG | 42,
        frag_idx: 1,
        frag_total: 3,
        wire_seq: 0xDEADBEEF,
        timestamp_us: 1_000_000,
    };
    let mut buf = Vec::new();
    h.encode(&mut buf);
    assert_eq!(buf.len(), DATAGRAM_HEADER_SIZE);
    let parsed = DatagramHeader::decode(&buf).expect("decode");
    assert_eq!(parsed.wire_seq, 0xDEADBEEF);
    assert_eq!(parsed.timestamp_us, 1_000_000);
    assert_eq!(parsed.frame_seq, TILE_DATAGRAM_FLAG | 42);

    let h_zero = DatagramHeader {
        frame_seq: 0,
        frag_idx: 0,
        frag_total: 1,
        wire_seq: 0,
        timestamp_us: 7,
    };
    let mut buf_zero = Vec::new();
    h_zero.encode(&mut buf_zero);
    let parsed_zero = DatagramHeader::decode(&buf_zero).expect("decode");
    assert_eq!(parsed_zero.wire_seq, 0);
    assert_eq!(parsed_zero.timestamp_us, 7);
    assert_eq!(&buf_zero[8..12], &[0, 0, 0, 0]);
    assert_eq!(&buf_zero[12..16], &[0, 0, 0, 7]);

    let h_max = DatagramHeader {
        frame_seq: 1,
        frag_idx: 0,
        frag_total: 1,
        wire_seq: u32::MAX,
        timestamp_us: u32::MAX,
    };
    let mut buf_max = Vec::new();
    h_max.encode(&mut buf_max);
    let parsed_max = DatagramHeader::decode(&buf_max).expect("decode");
    assert_eq!(parsed_max.wire_seq, u32::MAX);
    assert_eq!(parsed_max.timestamp_us, u32::MAX);
}

#[test]
fn frame_dimensions_datagram_roundtrip() {
    let dg = build_frame_dimensions_datagram(
        42, 1000, 1920, 1080,
    );
    assert_eq!(dg.len(), 32);

    let (dh, th, payload) = decode_tile_datagram(&dg).expect("decode failed");
    assert_ne!(
        dh.frame_seq & TILE_DATAGRAM_FLAG,
        0,
        "TILE_DATAGRAM_FLAG must be set"
    );
    assert_eq!(dh.frame_seq & !TILE_DATAGRAM_FLAG, 42);
    assert_eq!(dh.frag_idx, 0);
    assert_eq!(dh.frag_total, 1);
    assert_eq!(dh.timestamp_us, 1000);

    assert_eq!(th.tile_x, FRAME_DIMENSIONS_SENTINEL_X);
    assert_eq!(th.tile_y, FRAME_DIMENSIONS_SENTINEL_Y);
    assert_eq!(th.codec, Codec::Skip);
    assert_eq!(th.payload_len, 8);

    assert_eq!(payload.len(), 8);
    let w = u32::from_be_bytes(payload[0..4].try_into().unwrap());
    let h = u32::from_be_bytes(payload[4..8].try_into().unwrap());
    assert_eq!(w, 1920);
    assert_eq!(h, 1080);
}

#[test]
fn tile_parity_envelope_roundtrip() {
    let parity_payload = vec![0xAA, 0xBB, 0xCC, 0xDD, 0xEE];
    let envelope = TileParityEnvelope {
        group_first_wire_seq: 1000,
        k: 10,
        parity_idx: 0,
        group_first_payload_len: 512,
        parity_payload: parity_payload.clone(),
    };
    let mut buf = Vec::new();
    envelope.encode(&mut buf);
    assert_eq!(buf[0], TILE_PARITY_ENVELOPE);
    let parsed = TileParityEnvelope::decode(&buf).expect("decode");
    assert_eq!(parsed.group_first_wire_seq, 1000);
    assert_eq!(parsed.k, 10);
    assert_eq!(parsed.parity_idx, 0);
    assert_eq!(parsed.group_first_payload_len, 512);
    assert_eq!(parsed.parity_payload, parity_payload);
}

#[test]
fn tile_parity_envelope_rejects_wrong_discriminator() {
    let mut buf = vec![0x99, 0, 0, 0, 0, 10, 0, 0, 0];
    assert!(TileParityEnvelope::decode(&buf).is_err());
    buf[0] = TILE_PARITY_ENVELOPE;
    assert!(TileParityEnvelope::decode(&buf[..3]).is_err());
}

#[test]
fn tile_nack_envelope_roundtrip() {
    let entries = vec![
        TileNackEntry { frame_seq: 100, tile_x: 5, tile_y: 7, pass_idx: 3, frag_idx: 1 },
        TileNackEntry { frame_seq: 100, tile_x: 5, tile_y: 7, pass_idx: 4, frag_idx: 0 },
    ];
    let env = TileNackEnvelope { entries: entries.clone() };
    let mut buf = Vec::new();
    env.encode(&mut buf);
    assert_eq!(buf[0], TILE_NACK_ENVELOPE);
    assert_eq!(buf[1], 2);
    let parsed = TileNackEnvelope::decode(&buf).expect("decode");
    assert_eq!(parsed.entries, entries);
}

#[test]
fn tile_nack_envelope_caps_at_64_entries() {
    let entries: Vec<_> = (0..70)
        .map(|i| TileNackEntry { frame_seq: i, tile_x: 0, tile_y: 0, pass_idx: 0, frag_idx: 0 })
        .collect();
    let env = TileNackEnvelope { entries };
    let mut buf = Vec::new();
    let written = env.encode_clamped(&mut buf);
    assert_eq!(written, 64, "encode_clamped writes at most 64 entries");
    let parsed = TileNackEnvelope::decode(&buf).unwrap();
    assert_eq!(parsed.entries.len(), 64);
}

#[test]
fn classify_envelope_routes_by_first_byte() {
    let mut tile_dg = vec![0u8; DATAGRAM_HEADER_SIZE + TILE_HEADER_SIZE];
    tile_dg[0] = 0x80;
    assert_eq!(classify_inbound(&tile_dg), InboundKind::TileFragment);

    let mut frame_dg = vec![0u8; FRAME_HEADER_SIZE];
    frame_dg[0] = 0x10;
    assert_eq!(classify_inbound(&frame_dg), InboundKind::FrameFragment);

    assert_eq!(classify_inbound(&[0x03]), InboundKind::AckBatch);
    assert_eq!(classify_inbound(&[TILE_PARITY_ENVELOPE]), InboundKind::TileParity);
    assert_eq!(classify_inbound(&[TILE_NACK_ENVELOPE]), InboundKind::TileNack);
    assert_eq!(classify_inbound(&[0x09]), InboundKind::Unknown);
    assert_eq!(classify_inbound(&[]), InboundKind::Empty);
}
