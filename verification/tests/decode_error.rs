use ghostframe_transport::decode_error::{
    DecodeErrorMsg, DECODE_ERROR_MSG_TYPE, ERR_INDEX_OOB, ERR_THIN_UNCACHED_PALETTE,
};

#[test]
fn decode_basic() {
    let m = DecodeErrorMsg::decode(&[DECODE_ERROR_MSG_TYPE, 2, 7, 13, ERR_THIN_UNCACHED_PALETTE]).unwrap();
    assert_eq!(m.codec, 2);
    assert_eq!(m.tile_x, 7);
    assert_eq!(m.tile_y, 13);
    assert_eq!(m.error_code, ERR_THIN_UNCACHED_PALETTE);
}

#[test]
fn decode_error_decode_too_short() {
    assert!(DecodeErrorMsg::decode(&[DECODE_ERROR_MSG_TYPE, 2, 7, 13]).is_none());
    assert!(DecodeErrorMsg::decode(&[]).is_none());
}

#[test]
fn decode_error_decode_wrong_msg_type() {
    assert!(DecodeErrorMsg::decode(&[0x05, 2, 7, 13, 3]).is_none());
}

#[test]
fn roundtrip() {
    let m = DecodeErrorMsg { codec: 2, tile_x: 30, tile_y: 60, error_code: ERR_INDEX_OOB };
    let mut buf = Vec::new();
    m.encode(&mut buf);
    assert_eq!(buf, vec![DECODE_ERROR_MSG_TYPE, 2, 30, 60, ERR_INDEX_OOB]);
    assert_eq!(DecodeErrorMsg::decode(&buf), Some(m));
}
