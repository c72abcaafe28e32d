//! DECODE_ERROR: the client reports that it could not decode a tile.
//!
//! ```text
//! [0] 0x04 | [1] codec | [2] tile_x | [3] tile_y | [4] error_code
//! ```
use vstd::prelude::*;

verus! {

broadcast use vstd::slice::group_slice_axioms;

pub const DECODE_ERROR_MSG_TYPE: u8 = 0x04;

pub const DECODE_ERROR_SIZE: usize = 5;

/// The payload is too short.
pub const ERR_PAYLOAD_TOO_SHORT: u8 = 1;

/// The palette count is not in 1..=16.
pub const ERR_COUNT_OUT_OF_RANGE: u8 = 2;

/// A thin payload names a palette that the client does not have.
pub const ERR_THIN_UNCACHED_PALETTE: u8 = 3;

/// A bundled payload ends inside its palette.
pub const ERR_BUNDLED_TRUNCATED: u8 = 4;

/// A palette index is not below the count.
pub const ERR_INDEX_OOB: u8 = 5;

/// The run lengths exceed the tile's pixels.
pub const ERR_RLE_OVERSHOOT: u8 = 6;

/// The run lengths fall short of the tile's pixels.
pub const ERR_RLE_UNDERSHOOT: u8 = 7;

#[derive(Debug, Clone, Copy, PartialEq, Eq, Structural)]
pub struct DecodeErrorMsg {
    pub codec: u8,
    pub tile_x: u8,
    pub tile_y: u8,
    pub error_code: u8,
}

impl DecodeErrorMsg {
    /// The message's five bytes.
    pub open spec fn bytes(self) -> Seq<u8> {
        seq![DECODE_ERROR_MSG_TYPE, self.codec, self.tile_x, self.tile_y, self.error_code]
    }

    /// The message at the start of `s`, if there is one.
    pub open spec fn parse(s: Seq<u8>) -> Option<DecodeErrorMsg> {
        if s.len() >= DECODE_ERROR_SIZE && s[0] == DECODE_ERROR_MSG_TYPE {
            Some(DecodeErrorMsg { codec: s[1], tile_x: s[2], tile_y: s[3], error_code: s[4] })
        } else {
            None
        }
    }

    pub fn decode(data: &[u8]) -> (r: Option<Self>)
        ensures
            r == DecodeErrorMsg::parse(data@),
    {
        if data.len() < DECODE_ERROR_SIZE {
            return None;
        }
        if data[0] != DECODE_ERROR_MSG_TYPE {
            return None;
        }
        Some(
            DecodeErrorMsg {
                codec: data[1],
                tile_x: data[2],
                tile_y: data[3],
                error_code: data[4],
            },
        )
    }

    pub fn encode(&self, buf: &mut Vec<u8>)
        ensures
            final(buf)@ == old(buf)@ + self.bytes(),
    {
        buf.push(DECODE_ERROR_MSG_TYPE);
        buf.push(self.codec);
        buf.push(self.tile_x);
        buf.push(self.tile_y);
        buf.push(self.error_code);
        assert(buf@ =~= old(buf)@ + self.bytes());
    }
}

/// A report is read back from its own bytes, whatever follows them.
pub proof fn decode_error_round_trip(m: DecodeErrorMsg, rest: Seq<u8>)
    ensures
        DecodeErrorMsg::parse(m.bytes() + rest) == Some(m),
{
}

} // verus!
