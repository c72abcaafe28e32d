use ghostframe_transport::display::{
    DisplayInfoMsg, DisplayModeMsg, DISPLAY_INFO_MSG_TYPE, DISPLAY_MODE_MSG_TYPE,
};

#[test]
fn display_info_round_trips() {
    let msg = DisplayInfoMsg {
        max_width: 2560,
        max_height: 1440,
        scale_milli: 1500,
        mm_width: 597,
        mm_height: 336,
    };
    let mut buf = Vec::new();
    msg.encode(&mut buf);
    assert_eq!(buf[0], DISPLAY_INFO_MSG_TYPE);
    assert_eq!(DisplayInfoMsg::decode(&buf), Some(msg));
}

#[test]
fn display_mode_round_trips() {
    let msg = DisplayModeMsg {
        width: 1280,
        height: 800,
    };
    let mut buf = Vec::new();
    msg.encode(&mut buf);
    assert_eq!(buf[0], DISPLAY_MODE_MSG_TYPE);
    assert_eq!(DisplayModeMsg::decode(&buf), Some(msg));
}

#[test]
fn a_truncated_message_decodes_to_none_rather_than_panicking() {
    let msg = DisplayInfoMsg {
        max_width: 2560,
        max_height: 1440,
        scale_milli: 1000,
        mm_width: 597,
        mm_height: 336,
    };
    let mut buf = Vec::new();
    msg.encode(&mut buf);
    for n in 0..buf.len() {
        assert_eq!(
            DisplayInfoMsg::decode(&buf[..n]),
            None,
            "prefix of length {n}"
        );
    }
}

#[test]
fn the_two_types_do_not_collide_with_existing_messages() {
    for taken in [0x01u8, 0x03, 0x04, 0x05, 0x06] {
        assert_ne!(DISPLAY_INFO_MSG_TYPE, taken);
        assert_ne!(DISPLAY_MODE_MSG_TYPE, taken);
    }
    assert_ne!(DISPLAY_INFO_MSG_TYPE, DISPLAY_MODE_MSG_TYPE);
}
