//! HELLO: the client advertises what it can do, once per session.
//!
//! ```text
//! [0] 0x03 | [1] capabilities: bit 0 indices_raw, bit 1 H.264, rest ignored
//! ```
use vstd::prelude::*;

verus! {

broadcast use vstd::slice::group_slice_axioms;

pub const HELLO_MSG_TYPE: u8 = 0x03;

pub const HELLO_SIZE: usize = 2;

/// What the client can do; nothing until it says so.
#[derive(Debug, Clone, Copy, PartialEq, Eq, Structural)]
pub struct ClientCapabilities {
    pub indices_raw_enabled: bool,
    /// The client can decode and render H.264 frames.
    pub supports_h264: bool,
}

impl Default for ClientCapabilities {
    fn default() -> (c: Self)
        ensures
            !c.indices_raw_enabled,
            !c.supports_h264,
    {
        ClientCapabilities { indices_raw_enabled: false, supports_h264: false }
    }
}

impl ClientCapabilities {
    /// The capability byte.
    pub open spec fn byte(self) -> u8 {
        ((if self.indices_raw_enabled {
            1int
        } else {
            0int
        }) + (if self.supports_h264 {
            2int
        } else {
            0int
        })) as u8
    }

    /// The capabilities that a byte announces; its upper six bits mean nothing.
    pub open spec fn of_byte(b: u8) -> ClientCapabilities {
        ClientCapabilities { indices_raw_enabled: b % 2 != 0, supports_h264: b / 2 % 2 != 0 }
    }
}

#[derive(Debug, Clone, Copy, PartialEq, Eq, Structural)]
pub struct HelloMsg {
    pub caps: ClientCapabilities,
}

impl HelloMsg {
    /// Fails exactly on a short input or another message type.
    pub fn decode(data: &[u8]) -> (r: Option<Self>)
        ensures
            r == (if data@.len() >= HELLO_SIZE && data@[0] == HELLO_MSG_TYPE {
                Some(HelloMsg { caps: ClientCapabilities::of_byte(data@[1]) })
            } else {
                None
            }),
    {
        if data.len() < HELLO_SIZE {
            return None;
        }
        if data[0] != HELLO_MSG_TYPE {
            return None;
        }
        let caps_byte: u8 = data[1];
        Some(
            HelloMsg {
                caps: ClientCapabilities {
                    indices_raw_enabled: caps_byte % 2 != 0,
                    supports_h264: caps_byte / 2 % 2 != 0,
                },
            },
        )
    }

    pub fn encode(&self, buf: &mut Vec<u8>)
        ensures
            final(buf)@ == old(buf)@ + seq![HELLO_MSG_TYPE, self.caps.byte()],
    {
        let mut caps_byte: u8 = 0;
        if self.caps.indices_raw_enabled {
            caps_byte = caps_byte + 1;
        }
        if self.caps.supports_h264 {
            caps_byte = caps_byte + 2;
        }
        buf.push(HELLO_MSG_TYPE);
        buf.push(caps_byte);
        assert(buf@ =~= old(buf)@ + seq![HELLO_MSG_TYPE, self.caps.byte()]);
    }
}

/// Capabilities are read back from their byte, whatever the reserved bits.
pub proof fn capabilities_round_trip(c: ClientCapabilities, reserved: u8)
    requires
        reserved < 64,
    ensures
        ClientCapabilities::of_byte(c.byte()) == c,
        ClientCapabilities::of_byte((c.byte() + 4 * reserved) as u8) == c,
{
}

} // verus!
