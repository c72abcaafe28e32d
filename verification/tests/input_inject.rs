use ghostframe_transport::input_inject::{decode_input_msg, InputMsg};

#[test]
fn decode_pointer_move() {
    let bytes = [0x05, 0x01, 0x01, 0x90, 0xff, 0xfe];
    let (msg, consumed) = decode_input_msg(&bytes).unwrap();
    assert_eq!(consumed, 6);
    assert_eq!(msg, InputMsg::PointerMove { x: 400, y: -2 });
}

#[test]
fn decode_pointer_button() {
    let bytes = [0x05, 0x02, 0x00, 0x05, 0x00, 0x0a, 0x01, 0x01];
    let (msg, consumed) = decode_input_msg(&bytes).unwrap();
    assert_eq!(consumed, 8);
    assert_eq!(
        msg,
        InputMsg::PointerButton { x: 5, y: 10, button: 1, down: true }
    );
}

#[test]
fn decode_pointer_button_up() {
    let bytes = [0x05, 0x02, 0x00, 0x05, 0x00, 0x0a, 0x03, 0x00];
    let (msg, _) = decode_input_msg(&bytes).unwrap();
    assert_eq!(
        msg,
        InputMsg::PointerButton { x: 5, y: 10, button: 3, down: false }
    );
}

#[test]
fn decode_wheel() {
    let bytes = [0x05, 0x03, 0x00, 0x00, 0x00, 0x01];
    let (msg, consumed) = decode_input_msg(&bytes).unwrap();
    assert_eq!(consumed, 6);
    assert_eq!(msg, InputMsg::Wheel { dx: 0, dy: 1 });
}

#[test]
fn decode_key_down() {
    let bytes = [0x05, 0x04, 0x00, 0x00, 0x00, 0x61];
    let (msg, consumed) = decode_input_msg(&bytes).unwrap();
    assert_eq!(consumed, 6);
    assert_eq!(msg, InputMsg::KeyDown { keysym: 0x61 });
}

#[test]
fn decode_key_up() {
    let bytes = [0x05, 0x05, 0x00, 0x00, 0xff, 0x0d];
    let (msg, consumed) = decode_input_msg(&bytes).unwrap();
    assert_eq!(consumed, 6);
    assert_eq!(msg, InputMsg::KeyUp { keysym: 0xff0d });
}

#[test]
fn decode_rejects_wrong_msg_type() {
    let bytes = [0x04, 0x01, 0, 0, 0, 0];
    assert_eq!(decode_input_msg(&bytes), None);
}

#[test]
fn decode_rejects_unknown_subkind() {
    let bytes = [0x05, 0xfe, 0, 0, 0, 0];
    assert_eq!(decode_input_msg(&bytes), None);
}

#[test]
fn decode_rejects_short_buffer() {
    assert_eq!(decode_input_msg(&[0x05, 0x01, 0, 0]), None);
    assert_eq!(decode_input_msg(&[]), None);
    assert_eq!(decode_input_msg(&[0x05]), None);
}
