//! Input forwarding: pointer, wheel and key events from the client.
//!
//! ```text
//! [0] 0x05 | [1] sub-kind | fields, big-endian
//!   0x01 pointer move     x y               6 bytes
//!   0x02 pointer button   x y button down   8 bytes
//!   0x03 wheel            dx dy             6 bytes
//!   0x04 key down         keysym            6 bytes
//!   0x05 key up           keysym            6 bytes
//! ```
//! Keys travel as keysyms, so that differing keyboard layouts cannot corrupt
//! characters.
use crate::wire;
use crate::wire::{read_be32, read_be_i16};
use vstd::prelude::*;

verus! {

broadcast use vstd::slice::group_slice_axioms;

pub const INPUT_MSG_TYPE: u8 = 0x05;

const SUB_POINTER_MOVE: u8 = 0x01;

const SUB_POINTER_BUTTON: u8 = 0x02;

const SUB_WHEEL: u8 = 0x03;

const SUB_KEY_DOWN: u8 = 0x04;

const SUB_KEY_UP: u8 = 0x05;

#[derive(Debug, Clone, Copy, PartialEq, Eq, Structural)]
pub enum InputMsg {
    PointerMove { x: i16, y: i16 },
    PointerButton { x: i16, y: i16, button: u8, down: bool },
    Wheel { dx: i16, dy: i16 },
    KeyDown { keysym: u32 },
    KeyUp { keysym: u32 },
}

/// Where input events go, implemented by each windowing system.
pub trait InputInjector: Send + Sync {
    fn pointer_move(&self, x: i16, y: i16);

    fn pointer_button(&self, x: i16, y: i16, button: u8, down: bool);

    fn wheel(&self, dx: i16, dy: i16);

    fn key(&self, keysym: u32, down: bool);
}

/// The bytes that a message of this sub-kind takes; none if there is no such
/// sub-kind.
pub open spec fn input_size(sub: u8) -> Option<usize> {
    if sub == 1 || sub == 3 || sub == 4 || sub == 5 {
        Some(6)
    } else if sub == 2 {
        Some(8)
    } else {
        None
    }
}

/// The message of a known sub-kind at the start of `s`.
pub open spec fn input_of(s: Seq<u8>) -> InputMsg {
    let a = wire::signed16(wire::be16_at(s, 2));
    let b = wire::signed16(wire::be16_at(s, 4));
    if s[1] == 1 {
        InputMsg::PointerMove { x: a, y: b }
    } else if s[1] == 2 {
        InputMsg::PointerButton { x: a, y: b, button: s[6], down: s[7] != 0 }
    } else if s[1] == 3 {
        InputMsg::Wheel { dx: a, dy: b }
    } else if s[1] == 4 {
        InputMsg::KeyDown { keysym: wire::be32_at(s, 2) }
    } else {
        InputMsg::KeyUp { keysym: wire::be32_at(s, 2) }
    }
}

/// The message at the start of `s` and its size, if there is one.
pub open spec fn parse_input(s: Seq<u8>) -> Option<(InputMsg, usize)> {
    if s.len() < 2 || s[0] != INPUT_MSG_TYPE {
        None
    } else {
        match input_size(s[1]) {
            Some(n) => if s.len() >= n {
                Some((input_of(s), n))
            } else {
                None
            },
            None => None,
        }
    }
}

/// Decodes one event and says how many bytes it took.  Fails exactly on an
/// empty or short input, another message type, or an unknown sub-kind.
pub fn decode_input_msg(data: &[u8]) -> (r: Option<(InputMsg, usize)>)
    ensures
        r == parse_input(data@),
{
    if data.len() < 2 || data[0] != INPUT_MSG_TYPE {
        return None;
    }
    match data[1] {
        SUB_POINTER_MOVE => {
            if data.len() < 6 {
                return None;
            }
            Some((InputMsg::PointerMove { x: read_be_i16(data, 2), y: read_be_i16(data, 4) }, 6))
        },
        SUB_POINTER_BUTTON => {
            if data.len() < 8 {
                return None;
            }
            Some(
                (
                    InputMsg::PointerButton {
                        x: read_be_i16(data, 2),
                        y: read_be_i16(data, 4),
                        button: data[6],
                        down: data[7] != 0,
                    },
                    8,
                ),
            )
        },
        SUB_WHEEL => {
            if data.len() < 6 {
                return None;
            }
            Some((InputMsg::Wheel { dx: read_be_i16(data, 2), dy: read_be_i16(data, 4) }, 6))
        },
        SUB_KEY_DOWN => {
            if data.len() < 6 {
                return None;
            }
            Some((InputMsg::KeyDown { keysym: read_be32(data, 2) }, 6))
        },
        SUB_KEY_UP => {
            if data.len() < 6 {
                return None;
            }
            Some((InputMsg::KeyUp { keysym: read_be32(data, 2) }, 6))
        },
        _ => None,
    }
}

/// A message is decoded the same whatever follows it, and never takes more
/// bytes than there are.
pub proof fn input_ignores_what_follows(s: Seq<u8>, rest: Seq<u8>)
    ensures
        parse_input(s) is Some ==> parse_input(s + rest) == parse_input(s),
        parse_input(s) matches Some(p) ==> 6 <= p.1 <= s.len(),
{
}

} // verus!
