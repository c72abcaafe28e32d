//! Display negotiation: what the client's display can show, and the mode it
//! asks for.
//!
//! ```text
//! DisplayInfo  [0x07][max_w][max_h][scale_milli][mm_w][mm_h]   11 bytes
//! DisplayMode  [0x08][w][h]                                     5 bytes
//! ```
//! All fields are big-endian 16-bit numbers.  The scale is in thousandths and
//! decides; the millimetres are informative.
use crate::wire;
use crate::wire::{push_be16, read_be16};
use vstd::prelude::*;

verus! {

broadcast use vstd::slice::group_slice_axioms;

pub const DISPLAY_INFO_MSG_TYPE: u8 = 0x07;

pub const DISPLAY_MODE_MSG_TYPE: u8 = 0x08;

pub const DISPLAY_INFO_SIZE: usize = 11;

pub const DISPLAY_MODE_SIZE: usize = 5;

/// What the client's display can show.
#[derive(Debug, Clone, Copy, PartialEq, Eq, Structural)]
pub struct DisplayInfoMsg {
    pub max_width: u16,
    pub max_height: u16,
    /// Thousandths: 1000 is a scale of one.
    pub scale_milli: u16,
    pub mm_width: u16,
    pub mm_height: u16,
}

impl DisplayInfoMsg {
    /// The message's eleven bytes.
    pub open spec fn bytes(self) -> Seq<u8> {
        seq![DISPLAY_INFO_MSG_TYPE] + wire::be16_bytes(self.max_width) + wire::be16_bytes(
            self.max_height,
        ) + wire::be16_bytes(self.scale_milli) + wire::be16_bytes(self.mm_width)
            + wire::be16_bytes(self.mm_height)
    }

    /// The message at the start of `s`, if there is one.
    pub open spec fn parse(s: Seq<u8>) -> Option<DisplayInfoMsg> {
        if s.len() >= DISPLAY_INFO_SIZE && s[0] == DISPLAY_INFO_MSG_TYPE {
            Some(
                DisplayInfoMsg {
                    max_width: wire::be16_at(s, 1),
                    max_height: wire::be16_at(s, 3),
                    scale_milli: wire::be16_at(s, 5),
                    mm_width: wire::be16_at(s, 7),
                    mm_height: wire::be16_at(s, 9),
                },
            )
        } else {
            None
        }
    }

    pub fn decode(data: &[u8]) -> (r: Option<Self>)
        ensures
            r == DisplayInfoMsg::parse(data@),
    {
        if data.len() < DISPLAY_INFO_SIZE {
            return None;
        }
        if data[0] != DISPLAY_INFO_MSG_TYPE {
            return None;
        }
        Some(
            DisplayInfoMsg {
                max_width: read_be16(data, 1),
                max_height: read_be16(data, 3),
                scale_milli: read_be16(data, 5),
                mm_width: read_be16(data, 7),
                mm_height: read_be16(data, 9),
            },
        )
    }

    pub fn encode(&self, buf: &mut Vec<u8>)
        ensures
            final(buf)@ == old(buf)@ + self.bytes(),
    {
        buf.push(DISPLAY_INFO_MSG_TYPE);
        push_be16(buf, self.max_width);
        push_be16(buf, self.max_height);
        push_be16(buf, self.scale_milli);
        push_be16(buf, self.mm_width);
        push_be16(buf, self.mm_height);
        assert(buf@ =~= old(buf)@ + self.bytes());
    }
}

/// Display information is read back from its own bytes, whatever follows.
pub proof fn display_info_round_trip(m: DisplayInfoMsg, rest: Seq<u8>)
    ensures
        DisplayInfoMsg::parse(m.bytes() + rest) == Some(m),
{
    let s = m.bytes() + rest;
    assert(s.subrange(1, 3) =~= wire::be16_bytes(m.max_width));
    assert(s.subrange(3, 5) =~= wire::be16_bytes(m.max_height));
    assert(s.subrange(5, 7) =~= wire::be16_bytes(m.scale_milli));
    assert(s.subrange(7, 9) =~= wire::be16_bytes(m.mm_width));
    assert(s.subrange(9, 11) =~= wire::be16_bytes(m.mm_height));
    wire::be16_within(s, 1, m.max_width);
    wire::be16_within(s, 3, m.max_height);
    wire::be16_within(s, 5, m.scale_milli);
    wire::be16_within(s, 7, m.mm_width);
    wire::be16_within(s, 9, m.mm_height);
}

/// The mode that the client asks for.
#[derive(Debug, Clone, Copy, PartialEq, Eq, Structural)]
pub struct DisplayModeMsg {
    pub width: u16,
    pub height: u16,
}

impl DisplayModeMsg {
    /// The message's five bytes.
    pub open spec fn bytes(self) -> Seq<u8> {
        seq![DISPLAY_MODE_MSG_TYPE] + wire::be16_bytes(self.width) + wire::be16_bytes(self.height)
    }

    /// The message at the start of `s`, if there is one.
    pub open spec fn parse(s: Seq<u8>) -> Option<DisplayModeMsg> {
        if s.len() >= DISPLAY_MODE_SIZE && s[0] == DISPLAY_MODE_MSG_TYPE {
            Some(DisplayModeMsg { width: wire::be16_at(s, 1), height: wire::be16_at(s, 3) })
        } else {
            None
        }
    }

    pub fn decode(data: &[u8]) -> (r: Option<Self>)
        ensures
            r == DisplayModeMsg::parse(data@),
    {
        if data.len() < DISPLAY_MODE_SIZE {
            return None;
        }
        if data[0] != DISPLAY_MODE_MSG_TYPE {
            return None;
        }
        Some(DisplayModeMsg { width: read_be16(data, 1), height: read_be16(data, 3) })
    }

    pub fn encode(&self, buf: &mut Vec<u8>)
        ensures
            final(buf)@ == old(buf)@ + self.bytes(),
    {
        buf.push(DISPLAY_MODE_MSG_TYPE);
        push_be16(buf, self.width);
        push_be16(buf, self.height);
        assert(buf@ =~= old(buf)@ + self.bytes());
    }
}

/// A mode request is read back from its own bytes, whatever follows them.
pub proof fn display_mode_round_trip(m: DisplayModeMsg, rest: Seq<u8>)
    ensures
        DisplayModeMsg::parse(m.bytes() + rest) == Some(m),
{
    let s = m.bytes() + rest;
    assert(s.subrange(1, 3) =~= wire::be16_bytes(m.width));
    assert(s.subrange(3, 5) =~= wire::be16_bytes(m.height));
    wire::be16_within(s, 1, m.width);
    wire::be16_within(s, 3, m.height);
}

/// Why a display could not be set: a reason to log.
#[derive(Debug, Clone, PartialEq, Eq)]
pub struct DisplayError(pub String);

/// Server-side display control, implemented by each display backend.
pub trait DisplayController: Send + Sync {
    /// The framebuffer ceiling; larger requests are clamped to it.
    fn ceiling(&self) -> (u16, u16);

    /// Applies a resolution and a scale together.
    fn set_output(&self, width: u16, height: u16, scale_milli: u16) -> Result<(), DisplayError>;
}

} // verus!
