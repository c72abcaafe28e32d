use ghostframe_transport::ack::{
    AckBatch, AckDecodeError, AckEntry, ACK_BATCH_MSG_TYPE, ACK_ENTRY_SIZE,
    MAX_ACK_ENTRIES_PER_BATCH,
};

#[test]
fn batch_roundtrip_single_entry() {
    let batch = AckBatch {
        entries: vec![AckEntry {
            frame_seq: 0x1234_5678,
            tile_x: 3,
            tile_y: 7,
            pass_idx: 13,
            arrival_time_ms_lo16: 0,
        }],
    };
    let bytes = batch.encode();
    assert_eq!(bytes[0], ACK_BATCH_MSG_TYPE, "msg type = 0x04");
    assert_eq!(bytes[0], 0x04);
    assert_eq!(bytes[1], 1, "count = 1");
    assert_eq!(bytes[2..6], [0x78, 0x56, 0x34, 0x12], "frame_seq LE");
    assert_eq!(bytes[6], 3, "tile_x");
    assert_eq!(bytes[7], 7, "tile_y");
    assert_eq!(bytes[8], 13, "pass_idx");
    let decoded = AckBatch::decode(&bytes).expect("valid batch");
    assert_eq!(decoded.entries, batch.entries);
}

#[test]
fn batch_at_max_capacity_fits_under_mtu() {
    let entries: Vec<_> = (0..MAX_ACK_ENTRIES_PER_BATCH)
        .map(|i| AckEntry {
            frame_seq: i as u32,
            tile_x: 0,
            tile_y: 0,
            pass_idx: 0,
            arrival_time_ms_lo16: 0,
        })
        .collect();
    let batch = AckBatch { entries };
    let bytes = batch.encode();
    assert_eq!(bytes.len(), 2 + MAX_ACK_ENTRIES_PER_BATCH * ACK_ENTRY_SIZE);
    assert!(bytes.len() < 1200, "must fit under typical MTU");
    let decoded = AckBatch::decode(&bytes).expect("valid batch");
    assert_eq!(decoded.entries.len(), MAX_ACK_ENTRIES_PER_BATCH);
}

#[test]
fn decode_rejects_old_msg_type_0x02() {
    let data = vec![0x02, 1, 3, 4, 0x21, 0, 0];
    let err = AckBatch::decode(&data).expect_err("must reject 0x02");
    assert!(matches!(err, AckDecodeError::WrongMsgType(0x02)));
}

#[test]
fn decode_rejects_count_zero() {
    let data = vec![ACK_BATCH_MSG_TYPE, 0];
    assert!(matches!(
        AckBatch::decode(&data),
        Err(AckDecodeError::InvalidCount(0))
    ));
}

#[test]
fn decode_rejects_truncated_entry_payload() {
    let mut data = vec![ACK_BATCH_MSG_TYPE, 2];
    data.extend_from_slice(&[0u8; 9]);
    assert!(matches!(
        AckBatch::decode(&data),
        Err(AckDecodeError::TooShort(_))
    ));
}

#[test]
fn ack_envelope_v4_carries_arrival_time() {
    let entries = vec![
        AckEntry {
            frame_seq: 0x1234_5678,
            tile_x: 7,
            tile_y: 9,
            pass_idx: 3,
            arrival_time_ms_lo16: 0xABCD,
        },
        AckEntry {
            frame_seq: 0x9999_AAAA,
            tile_x: 1,
            tile_y: 2,
            pass_idx: 13,
            arrival_time_ms_lo16: 0x0010,
        },
    ];
    let batch = AckBatch { entries: entries.clone() };
    let bytes = batch.encode();
    assert_eq!(bytes.len(), 20);
    assert_eq!(bytes[0], ACK_BATCH_MSG_TYPE);
    assert_eq!(bytes[0], 0x04, "msg_type bumped to 0x04");
    assert_eq!(bytes[1], 2);

    let decoded = AckBatch::decode(&bytes).expect("round-trip");
    assert_eq!(decoded.entries, entries);
}
