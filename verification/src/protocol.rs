//! Wire format of tile and frame datagrams, and of the envelopes around them.
//!
//! Each QUIC datagram carries one fragment of one tile:
//! ```text
//! [DatagramHeader: 16 bytes][TileHeader: 8 bytes][payload: variable]
//! ```
//! or one fragment of one full frame:
//! ```text
//! [FrameHeader: 14 bytes][payload: variable]
//! ```
//! The receiver reassembles tile fragments keyed on
//! `(frame_seq, tile_x, tile_y)`.
use crate::wire;
use crate::wire::{
    copy_range, push_be16, push_be32, push_bytes, push_le32, read_be16, read_be32, read_le32,
};
use vstd::prelude::*;
use vstd::slice::slice_subrange;

verus! {

broadcast use vstd::slice::group_slice_axioms;

/// What a client sends to see whether the session is alive.
pub const PING_PAYLOAD: [u8; 4] = [0x70, 0x69, 0x6e, 0x67];

/// The answer to it.
pub const PONG_PAYLOAD: [u8; 4] = [0x70, 0x6f, 0x6e, 0x67];

pub const DATAGRAM_HEADER_SIZE: usize = 16;

pub const TILE_HEADER_SIZE: usize = 8;

/// Sentinel `wire_seq` value meaning "not yet stamped by the emitter".  The
/// emitter overwrites it with a per-session sequence number at submit time.
pub const UNSTAMPED_WIRE_SEQ: u32 = 0;

/// Why a byte string is not a message of this protocol.
#[derive(Debug, Clone, Copy, PartialEq, Eq, Structural)]
pub enum ProtocolError {
    /// The input ends before the message does.
    TooShort { expected: usize, got: usize },
    /// No codec has this number.
    UnknownCodec(u8),
    /// The first byte names another envelope.
    UnknownEnvelope(u8),
    /// The entry count exceeds the protocol maximum.
    InvalidLength,
}

/// How a tile's payload is encoded.
#[derive(Debug, Clone, Copy, PartialEq, Eq, Structural)]
pub enum Codec {
    Skip,
    H264,
    PalRle,
    Solid,
    Raw,
    Cdf53,
}

impl Codec {
    /// The codec's number on the wire.
    pub open spec fn code(self) -> u8 {
        match self {
            Codec::Skip => 0,
            Codec::H264 => 1,
            Codec::PalRle => 2,
            Codec::Solid => 3,
            Codec::Raw => 4,
            Codec::Cdf53 => 5,
        }
    }

    /// The codec with number `v`, for `v` at most 5.
    pub open spec fn of_code(v: u8) -> Codec {
        if v == 0 {
            Codec::Skip
        } else if v == 1 {
            Codec::H264
        } else if v == 2 {
            Codec::PalRle
        } else if v == 3 {
            Codec::Solid
        } else if v == 4 {
            Codec::Raw
        } else {
            Codec::Cdf53
        }
    }

    /// The codec's number on the wire.
    pub fn to_u8(self) -> (v: u8)
        ensures
            v == self.code(),
    {
        match self {
            Codec::Skip => 0,
            Codec::H264 => 1,
            Codec::PalRle => 2,
            Codec::Solid => 3,
            Codec::Raw => 4,
            Codec::Cdf53 => 5,
        }
    }

    /// Succeeds exactly on the six assigned numbers.
    pub fn from_u8(v: u8) -> (r: Result<Self, ProtocolError>)
        ensures
            v <= 5 ==> r == Ok::<Codec, ProtocolError>(Codec::of_code(v)),
            v > 5 ==> r == Err::<Codec, ProtocolError>(ProtocolError::UnknownCodec(v)),
    {
        match v {
            0 => Ok(Codec::Skip),
            1 => Ok(Codec::H264),
            2 => Ok(Codec::PalRle),
            3 => Ok(Codec::Solid),
            4 => Ok(Codec::Raw),
            5 => Ok(Codec::Cdf53),
            other => Err(ProtocolError::UnknownCodec(other)),
        }
    }
}

/// A codec is recovered from its number, and a number from its codec.
pub proof fn codec_round_trip(c: Codec, v: u8)
    ensures
        c.code() <= 5,
        Codec::of_code(c.code()) == c,
        v <= 5 ==> Codec::of_code(v).code() == v,
{
}

/// Header of every tile datagram.
///
/// ```text
/// [0..4] frame_seq BE | [4..6] frag_idx BE | [6..8] frag_total BE
/// [8..12] wire_seq BE | [12..16] timestamp_us BE
/// ```
#[derive(Debug, Clone, Copy, PartialEq, Eq, Structural)]
pub struct DatagramHeader {
    pub frame_seq: u32,
    pub frag_idx: u16,
    pub frag_total: u16,
    /// Per-session emission number: the client drops duplicates by it and
    /// matches parity datagrams to their source group.  `0` means "not yet
    /// stamped".
    pub wire_seq: u32,
    pub timestamp_us: u32,
}

impl DatagramHeader {
    /// The header's sixteen bytes.
    pub open spec fn bytes(self) -> Seq<u8> {
        wire::be32_bytes(self.frame_seq) + wire::be16_bytes(self.frag_idx)
            + wire::be16_bytes(self.frag_total) + wire::be32_bytes(self.wire_seq)
            + wire::be32_bytes(self.timestamp_us)
    }

    /// The header at the start of `s`.
    pub open spec fn parse(s: Seq<u8>) -> DatagramHeader {
        DatagramHeader {
            frame_seq: wire::be32_at(s, 0),
            frag_idx: wire::be16_at(s, 4),
            frag_total: wire::be16_at(s, 6),
            wire_seq: wire::be32_at(s, 8),
            timestamp_us: wire::be32_at(s, 12),
        }
    }

    pub fn encode(&self, buf: &mut Vec<u8>)
        ensures
            final(buf)@ == old(buf)@ + self.bytes(),
    {
        push_be32(buf, self.frame_seq);
        push_be16(buf, self.frag_idx);
        push_be16(buf, self.frag_total);
        push_be32(buf, self.wire_seq);
        push_be32(buf, self.timestamp_us);
        assert(buf@ =~= old(buf)@ + self.bytes());
    }

    /// Fails exactly when `data` is shorter than the header.
    pub fn decode(data: &[u8]) -> (r: Result<Self, ProtocolError>)
        ensures
            data@.len() < DATAGRAM_HEADER_SIZE ==> r == Err::<DatagramHeader, ProtocolError>(
                ProtocolError::TooShort {
                    expected: DATAGRAM_HEADER_SIZE,
                    got: data@.len() as usize,
                },
            ),
            data@.len() >= DATAGRAM_HEADER_SIZE ==> r == Ok::<DatagramHeader, ProtocolError>(
                DatagramHeader::parse(data@),
            ),
    {
        if data.len() < DATAGRAM_HEADER_SIZE {
            return Err(
                ProtocolError::TooShort { expected: DATAGRAM_HEADER_SIZE, got: data.len() },
            );
        }
        Ok(
            DatagramHeader {
                frame_seq: read_be32(data, 0),
                frag_idx: read_be16(data, 4),
                frag_total: read_be16(data, 6),
                wire_seq: read_be32(data, 8),
                timestamp_us: read_be32(data, 12),
            },
        )
    }

    /// Whether this datagram is a parity (FEC) fragment: those have
    /// `frag_idx >= frag_total`.
    pub fn is_parity(&self) -> (b: bool)
        ensures
            b == (self.frag_idx >= self.frag_total),
    {
        self.frag_idx >= self.frag_total
    }
}

/// A datagram header is read back from its own bytes, whatever follows them.
pub proof fn datagram_header_round_trip(h: DatagramHeader, rest: Seq<u8>)
    ensures
        h.bytes().len() == DATAGRAM_HEADER_SIZE,
        DatagramHeader::parse(h.bytes() + rest) == h,
{
    let s = h.bytes() + rest;
    assert(s.subrange(0, 4) =~= wire::be32_bytes(h.frame_seq));
    assert(s.subrange(4, 6) =~= wire::be16_bytes(h.frag_idx));
    assert(s.subrange(6, 8) =~= wire::be16_bytes(h.frag_total));
    assert(s.subrange(8, 12) =~= wire::be32_bytes(h.wire_seq));
    assert(s.subrange(12, 16) =~= wire::be32_bytes(h.timestamp_us));
    wire::be32_within(s, 0, h.frame_seq);
    wire::be16_within(s, 4, h.frag_idx);
    wire::be16_within(s, 6, h.frag_total);
    wire::be32_within(s, 8, h.wire_seq);
    wire::be32_within(s, 12, h.timestamp_us);
}

/// Header of the tile a fragment belongs to.
///
/// ```text
/// [0] tile_x | [1] tile_y | [2] codec * 2 + lz4
/// [3] generation (high nibble), pass (low nibble) | [4..8] payload_len BE
/// ```
#[derive(Debug, Clone, Copy, PartialEq, Eq, Structural)]
pub struct TileHeader {
    pub tile_x: u8,
    pub tile_y: u8,
    pub codec: Codec,
    pub lz4: bool,
    /// Four bits go on the wire.
    pub generation: u8,
    /// Four bits go on the wire.
    pub pass: u8,
    pub payload_len: u32,
}

impl TileHeader {
    /// The header's eight bytes.
    pub open spec fn bytes(self) -> Seq<u8> {
        seq![
            self.tile_x,
            self.tile_y,
            (self.codec.code() * 2 + (if self.lz4 {
                1int
            } else {
                0int
            })) as u8,
            ((self.generation % 16) * 16 + self.pass % 16) as u8,
        ] + wire::be32_bytes(self.payload_len)
    }

    /// The header at the start of `s`, if byte 2 names a codec.
    pub open spec fn parse(s: Seq<u8>) -> Result<TileHeader, ProtocolError> {
        if s[2] / 2 > 5 {
            Err(ProtocolError::UnknownCodec(s[2] / 2))
        } else {
            Ok(
                TileHeader {
                    tile_x: s[0],
                    tile_y: s[1],
                    codec: Codec::of_code(s[2] / 2),
                    lz4: s[2] % 2 != 0,
                    generation: s[3] / 16,
                    pass: s[3] % 16,
                    payload_len: wire::be32_at(s, 4),
                },
            )
        }
    }

    pub fn encode(&self, buf: &mut Vec<u8>)
        ensures
            final(buf)@ == old(buf)@ + self.bytes(),
    {
        buf.push(self.tile_x);
        buf.push(self.tile_y);
        let code: u8 = self.codec.to_u8();
        let lz4: u8 = if self.lz4 {
            1
        } else {
            0
        };
        buf.push(code * 2 + lz4);
        buf.push((self.generation % 16) * 16 + self.pass % 16);
        push_be32(buf, self.payload_len);
        assert(buf@ =~= old(buf)@ + self.bytes());
    }

    /// Fails exactly on a short input or an unassigned codec number.
    pub fn decode(data: &[u8]) -> (r: Result<Self, ProtocolError>)
        ensures
            data@.len() < TILE_HEADER_SIZE ==> r == Err::<TileHeader, ProtocolError>(
                ProtocolError::TooShort {
                    expected: TILE_HEADER_SIZE,
                    got: data@.len() as usize,
                },
            ),
            data@.len() >= TILE_HEADER_SIZE ==> r == TileHeader::parse(data@),
    {
        if data.len() < TILE_HEADER_SIZE {
            return Err(ProtocolError::TooShort { expected: TILE_HEADER_SIZE, got: data.len() });
        }
        let packed: u8 = data[2];
        let codec = match Codec::from_u8(packed / 2) {
            Ok(codec) => codec,
            Err(e) => return Err(e),
        };
        let gen_pass: u8 = data[3];
        Ok(
            TileHeader {
                tile_x: data[0],
                tile_y: data[1],
                codec,
                lz4: packed % 2 != 0,
                generation: gen_pass / 16,
                pass: gen_pass % 16,
                payload_len: read_be32(data, 4),
            },
        )
    }
}

/// A tile header whose generation and pass fit in four bits is read back from
/// its own bytes, whatever follows them.
pub proof fn tile_header_round_trip(h: TileHeader, rest: Seq<u8>)
    requires
        h.generation < 16,
        h.pass < 16,
    ensures
        h.bytes().len() == TILE_HEADER_SIZE,
        TileHeader::parse(h.bytes() + rest) == Ok::<TileHeader, ProtocolError>(h),
{
    codec_round_trip(h.codec, 0);
}

// ---------------------------------------------------------------------------
// Fragmentation
// ---------------------------------------------------------------------------

/// Number of fragments that a payload of `len` bytes takes at `max` bytes
/// each.  An empty payload still takes one.
pub open spec fn chunk_count(len: nat, max: nat) -> nat {
    if len == 0 {
        1
    } else {
        ((len - 1) / max as int + 1) as nat
    }
}

/// Fragment `i` of `payload` at `max` bytes per fragment: all of them are full
/// but the last.
pub open spec fn chunk(payload: Seq<u8>, max: nat, i: int) -> Seq<u8> {
    payload.subrange(
        i * max,
        if (i + 1) * max <= payload.len() {
            (i + 1) * max
        } else {
            payload.len() as int
        },
    )
}

/// Every fragment of `payload`, in order.
pub open spec fn chunks(payload: Seq<u8>, max: nat) -> Seq<Seq<u8>> {
    Seq::new(chunk_count(payload.len(), max), |i: int| chunk(payload, max, i))
}

/// The concatenation of `parts` in order.
pub open spec fn concat(parts: Seq<Seq<u8>>) -> Seq<u8>
    decreases parts.len(),
{
    if parts.len() == 0 {
        Seq::empty()
    } else {
        concat(parts.drop_last()) + parts.last()
    }
}

/// Where fragment `i` begins and ends inside the payload.
pub proof fn chunk_bounds(len: nat, max: nat, i: int)
    requires
        max > 0,
        0 <= i < chunk_count(len, max),
    ensures
        0 <= i * max <= len,
        len > 0 ==> i * max < len,
        (i + 1) * max == i * max + max,
        i + 1 < chunk_count(len, max) ==> (i + 1) * max < len,
        i + 1 == chunk_count(len, max) ==> len <= (i + 1) * max,
{
    assert((i + 1) * max == i * max + max) by (nonlinear_arith);
    assert(0 <= i * max) by (nonlinear_arith)
        requires
            0 <= i,
    ;
    if len > 0 {
        let q = (len - 1) / max as int;
        let r = (len - 1) % max as int;
        vstd::arithmetic::div_mod::lemma_fundamental_div_mod(len - 1, max as int);
        assert(i * max <= q * max) by (nonlinear_arith)
            requires
                i <= q,
        ;
        assert(max * q == q * max) by (nonlinear_arith);
        if i + 1 <= q {
            assert((i + 1) * max <= q * max) by (nonlinear_arith)
                requires
                    i + 1 <= q,
            ;
        }
    } else {
        assert(i == 0);
    }
}

/// The first `n` fragments make up the payload up to where they end.
proof fn concat_chunks_prefix(payload: Seq<u8>, max: nat, n: nat)
    requires
        max > 0,
        n <= chunk_count(payload.len(), max),
    ensures
        concat(chunks(payload, max).take(n as int)) == payload.subrange(
            0,
            if n * max <= payload.len() {
                n * max as int
            } else {
                payload.len() as int
            },
        ),
    decreases n,
{
    let all = chunks(payload, max);
    if n == 0 {
        assert(all.take(0) =~= Seq::empty());
        assert(concat(all.take(0)) =~= Seq::empty());
        assert(n * max == 0) by (nonlinear_arith)
            requires
                n == 0,
        ;
        assert(payload.subrange(0, 0) =~= Seq::empty());
    } else {
        let m = (n - 1) as nat;
        concat_chunks_prefix(payload, max, m);
        chunk_bounds(payload.len(), max, m as int);
        assert(n * max == m * max + max) by (nonlinear_arith)
            requires
                n == m + 1,
        ;
        assert(all.take(n as int).drop_last() =~= all.take(m as int));
        assert(all.take(n as int).last() == chunk(payload, max, m as int));
        let end = if n * max <= payload.len() {
            n * max as int
        } else {
            payload.len() as int
        };
        assert(payload.subrange(0, end) =~= payload.subrange(0, (m * max) as int) + chunk(
            payload,
            max,
            m as int,
        ));
    }
}

/// Nothing is lost and nothing is added by fragmentation: the fragments in
/// order are the payload.
pub proof fn fragments_reassemble(payload: Seq<u8>, max: nat)
    requires
        max > 0,
    ensures
        concat(chunks(payload, max)) == payload,
{
    let n = chunk_count(payload.len(), max);
    concat_chunks_prefix(payload, max, n);
    chunk_bounds(payload.len(), max, n - 1);
    assert(chunks(payload, max).take(n as int) =~= chunks(payload, max));
    assert(payload.subrange(0, payload.len() as int) =~= payload);
}

/// No fragment is longer than `max`, and all but the last are exactly that
/// long.
pub proof fn fragment_lengths(payload: Seq<u8>, max: nat, i: int)
    requires
        max > 0,
        0 <= i < chunk_count(payload.len(), max),
    ensures
        chunk(payload, max, i).len() <= max,
        i + 1 < chunk_count(payload.len(), max) ==> chunk(payload, max, i).len() == max,
        payload.len() > 0 ==> chunk(payload, max, i).len() > 0,
{
    chunk_bounds(payload.len(), max, i);
}

/// Computes `chunk_count`.
fn count_chunks(len: usize, max: usize) -> (n: usize)
    requires
        max > 0,
    ensures
        n == chunk_count(len as nat, max as nat),
        n >= 1,
{
    if len == 0 {
        1
    } else {
        assert((len - 1) / max as int <= len - 1) by (nonlinear_arith)
            requires
                max > 0,
                len > 0,
        ;
        assert((len - 1) / max as int >= 0) by (nonlinear_arith)
            requires
                max > 0,
                len > 0,
        ;
        (len - 1) / max + 1
    }
}

/// The end of the fragment that begins at `start`.
fn chunk_end(len: usize, max: usize, start: usize) -> (end: usize)
    requires
        start <= len,
    ensures
        end == (if start + max <= len {
            start + max
        } else {
            len as int
        }),
{
    if len - start >= max {
        start + max
    } else {
        len
    }
}

/// The low sixteen bits of a count.
pub open spec fn low16(n: int) -> u16 {
    (n % 0x1_0000) as u16
}

/// The low thirty-two bits of a length.
pub open spec fn low32(n: int) -> u32 {
    (n % 0x1_0000_0000) as u32
}

fn to_low16(n: usize) -> (x: u16)
    ensures
        x == low16(n as int),
{
    (n % 0x1_0000) as u16
}

fn to_low32(n: usize) -> (x: u32)
    ensures
        x == low32(n as int),
{
    (n as u64 % 0x1_0000_0000) as u32
}

/// One tile datagram from its parts.
fn tile_datagram(dh: DatagramHeader, th: TileHeader, payload: &[u8]) -> (buf: Vec<u8>)
    ensures
        buf@ == dh.bytes() + th.bytes() + payload@,
{
    let mut buf: Vec<u8> = Vec::new();
    dh.encode(&mut buf);
    th.encode(&mut buf);
    push_bytes(&mut buf, payload);
    assert(buf@ =~= dh.bytes() + th.bytes() + payload@);
    buf
}

/// What goes into every fragment of one tile: the fields of the
/// [`DatagramHeader`] and [`TileHeader`] that fragmentation does not compute.
#[derive(Clone, Copy, Debug)]
pub struct TileFragmentInputs {
    pub frame_seq: u32,
    pub tile_x: u8,
    pub tile_y: u8,
    pub codec: Codec,
    pub generation: u8,
    pub pass: u8,
    pub timestamp_us: u32,
}

impl TileFragmentInputs {
    /// The datagram header of fragment `idx` of `total`.
    pub open spec fn datagram_header(self, idx: int, total: nat) -> DatagramHeader {
        DatagramHeader {
            frame_seq: self.frame_seq,
            frag_idx: low16(idx),
            frag_total: low16(total as int),
            wire_seq: UNSTAMPED_WIRE_SEQ,
            timestamp_us: self.timestamp_us,
        }
    }

    /// The tile header of every fragment of a payload of `len` bytes.
    pub open spec fn tile_header(self, len: nat) -> TileHeader {
        TileHeader {
            tile_x: self.tile_x,
            tile_y: self.tile_y,
            codec: self.codec,
            lz4: false,
            generation: self.generation,
            pass: self.pass,
            payload_len: low32(len as int),
        }
    }

    /// Fragment `i` of `payload`, headers included.
    pub open spec fn fragment(self, payload: Seq<u8>, max: nat, i: int) -> Seq<u8> {
        self.datagram_header(i, chunk_count(payload.len(), max)).bytes() + self.tile_header(
            payload.len(),
        ).bytes() + chunk(payload, max, i)
    }
}

/// Fragments a tile payload into datagrams of at most `max_fragment_payload`
/// payload bytes.
///
/// An empty payload (e.g. the Skip codec) becomes one datagram with no payload
/// bytes.  The header fields hold the low bits of the fragment index, of the
/// fragment count and of the payload length.
pub fn fragment_tile(
    inputs: &TileFragmentInputs,
    payload: &[u8],
    max_fragment_payload: usize,
) -> (out: Vec<Vec<u8>>)
    requires
        max_fragment_payload > 0,
    ensures
        out@.len() == chunk_count(payload@.len(), max_fragment_payload as nat),
        forall|i: int|
            0 <= i < out@.len() ==> (#[trigger] out@[i])@ == inputs.fragment(
                payload@,
                max_fragment_payload as nat,
                i,
            ),
{
    let total: usize = count_chunks(payload.len(), max_fragment_payload);
    let frag_total: u16 = to_low16(total);
    let payload_len: u32 = to_low32(payload.len());
    let mut out: Vec<Vec<u8>> = Vec::new();
    let mut idx: usize = 0;
    let mut start: usize = 0;
    while idx < total
        invariant
            max_fragment_payload > 0,
            total == chunk_count(payload@.len(), max_fragment_payload as nat),
            frag_total == low16(total as int),
            payload_len == low32(payload@.len() as int),
            idx <= total,
            idx < total ==> start == idx * max_fragment_payload,
            out@.len() == idx,
            forall|i: int|
                0 <= i < idx ==> (#[trigger] out@[i])@ == inputs.fragment(
                    payload@,
                    max_fragment_payload as nat,
                    i,
                ),
        decreases total - idx,
    {
        proof {
            chunk_bounds(payload@.len(), max_fragment_payload as nat, idx as int);
        }
        let end: usize = chunk_end(payload.len(), max_fragment_payload, start);
        let dh = DatagramHeader {
            frame_seq: inputs.frame_seq,
            frag_idx: to_low16(idx),
            frag_total,
            wire_seq: UNSTAMPED_WIRE_SEQ,
            timestamp_us: inputs.timestamp_us,
        };
        let th = TileHeader {
            tile_x: inputs.tile_x,
            tile_y: inputs.tile_y,
            codec: inputs.codec,
            lz4: false,
            generation: inputs.generation,
            pass: inputs.pass,
            payload_len,
        };
        out.push(tile_datagram(dh, th, slice_subrange(payload, start, end)));
        start = end;
        idx = idx + 1;
    }
    out
}

/// The parts of a tile datagram, if it is one.
pub open spec fn tile_datagram_parts(s: Seq<u8>) -> Result<
    (DatagramHeader, TileHeader, Seq<u8>),
    ProtocolError,
> {
    if s.len() < DATAGRAM_HEADER_SIZE {
        Err(ProtocolError::TooShort { expected: DATAGRAM_HEADER_SIZE, got: s.len() as usize })
    } else if s.len() < DATAGRAM_HEADER_SIZE + TILE_HEADER_SIZE {
        Err(
            ProtocolError::TooShort {
                expected: TILE_HEADER_SIZE,
                got: (s.len() - DATAGRAM_HEADER_SIZE) as usize,
            },
        )
    } else {
        match TileHeader::parse(s.skip(DATAGRAM_HEADER_SIZE as int)) {
            Ok(th) => Ok(
                (
                    DatagramHeader::parse(s),
                    th,
                    s.skip(DATAGRAM_HEADER_SIZE + TILE_HEADER_SIZE),
                ),
            ),
            Err(e) => Err(e),
        }
    }
}

/// Splits a tile datagram into its two headers and its payload.
pub fn decode_tile_datagram(data: &[u8]) -> (r: Result<
    (DatagramHeader, TileHeader, &[u8]),
    ProtocolError,
>)
    ensures
        match (r, tile_datagram_parts(data@)) {
            (Ok(got), Ok(want)) => got.0 == want.0 && got.1 == want.1 && got.2@ == want.2,
            (Err(got), Err(want)) => got == want,
            _ => false,
        },
{
    let dh = match DatagramHeader::decode(data) {
        Ok(dh) => dh,
        Err(e) => return Err(e),
    };
    let rest = slice_subrange(data, DATAGRAM_HEADER_SIZE, data.len());
    assert(rest@ =~= data@.skip(DATAGRAM_HEADER_SIZE as int));
    let th = match TileHeader::decode(rest) {
        Ok(th) => th,
        Err(e) => return Err(e),
    };
    let payload = slice_subrange(rest, TILE_HEADER_SIZE, rest.len());
    assert(payload@ =~= data@.skip(DATAGRAM_HEADER_SIZE + TILE_HEADER_SIZE));
    Ok((dh, th, payload))
}

/// Every fragment of a tile decodes to the headers it was built from and to
/// its share of the payload.
pub proof fn tile_fragment_decodes(
    inputs: TileFragmentInputs,
    payload: Seq<u8>,
    max: nat,
    i: int,
)
    requires
        max > 0,
        0 <= i < chunk_count(payload.len(), max),
        inputs.generation < 16,
        inputs.pass < 16,
    ensures
        tile_datagram_parts(inputs.fragment(payload, max, i)) == Ok::<
            (DatagramHeader, TileHeader, Seq<u8>),
            ProtocolError,
        >(
            (
                inputs.datagram_header(i, chunk_count(payload.len(), max)),
                inputs.tile_header(payload.len()),
                chunk(payload, max, i),
            ),
        ),
{
    let dh = inputs.datagram_header(i, chunk_count(payload.len(), max));
    let th = inputs.tile_header(payload.len());
    let c = chunk(payload, max, i);
    let s = inputs.fragment(payload, max, i);
    datagram_header_round_trip(dh, th.bytes() + c);
    tile_header_round_trip(th, c);
    assert(s =~= dh.bytes() + (th.bytes() + c));
    assert(s.skip(DATAGRAM_HEADER_SIZE as int) =~= th.bytes() + c);
    assert(s.skip(DATAGRAM_HEADER_SIZE + TILE_HEADER_SIZE) =~= c);
}

/// Parity datagram `i` of a tile.
pub open spec fn tile_parity_datagram(
    frame_seq: u32,
    tile_x: u8,
    tile_y: u8,
    codec: Codec,
    timestamp_us: u32,
    frag_total: u16,
    parity_payload: Seq<u8>,
    i: int,
) -> Seq<u8> {
    (DatagramHeader {
        frame_seq,
        frag_idx: low16(frag_total + i),
        frag_total,
        wire_seq: UNSTAMPED_WIRE_SEQ,
        timestamp_us,
    }).bytes() + (TileHeader {
        tile_x,
        tile_y,
        codec,
        lz4: false,
        generation: 0,
        pass: 0,
        payload_len: 0,
    }).bytes() + parity_payload
}

/// Builds the parity datagrams of a tile from the `(group_start, payload)`
/// pairs that `fec::generate_parity` gives.
///
/// Their `frag_idx` counts on from `frag_total`, the number of source
/// fragments, so they sort after those; the sum must fit the field.
pub fn build_parity_datagrams(
    frame_seq: u32,
    tile_x: u8,
    tile_y: u8,
    codec: Codec,
    timestamp_us: u32,
    frag_total: u16,
    parities: &[(u16, Vec<u8>)],
) -> (out: Vec<Vec<u8>>)
    requires
        frag_total == 0 || frag_total + parities@.len() <= 0x1_0000,
    ensures
        out@.len() == parities@.len(),
        forall|i: int|
            0 <= i < out@.len() ==> (#[trigger] out@[i])@ == tile_parity_datagram(
                frame_seq,
                tile_x,
                tile_y,
                codec,
                timestamp_us,
                frag_total,
                parities@[i].1@,
                i,
            ),
{
    let mut out: Vec<Vec<u8>> = Vec::new();
    let mut idx: usize = 0;
    while idx < parities.len()
        invariant
            frag_total == 0 || frag_total + parities@.len() <= 0x1_0000,
            idx <= parities@.len(),
            out@.len() == idx,
            forall|i: int|
                0 <= i < idx ==> (#[trigger] out@[i])@ == tile_parity_datagram(
                    frame_seq,
                    tile_x,
                    tile_y,
                    codec,
                    timestamp_us,
                    frag_total,
                    parities@[i].1@,
                    i,
                ),
        decreases parities@.len() - idx,
    {
        let dh = DatagramHeader {
            frame_seq,
            frag_idx: frag_total + to_low16(idx),
            frag_total,
            wire_seq: UNSTAMPED_WIRE_SEQ,
            timestamp_us,
        };
        let th = TileHeader {
            tile_x,
            tile_y,
            codec,
            lz4: false,
            generation: 0,
            pass: 0,
            payload_len: 0,
        };
        out.push(tile_datagram(dh, th, parities[idx].1.as_slice()));
        idx = idx + 1;
    }
    out
}

/// The most tile payload bytes that fit in a datagram of `max_datagram_size`.
pub fn max_fragment_payload(max_datagram_size: usize) -> (n: usize)
    ensures
        n == (if max_datagram_size >= DATAGRAM_HEADER_SIZE + TILE_HEADER_SIZE {
            max_datagram_size - (DATAGRAM_HEADER_SIZE + TILE_HEADER_SIZE)
        } else {
            0
        }),
{
    max_datagram_size.saturating_sub(DATAGRAM_HEADER_SIZE + TILE_HEADER_SIZE)
}

/// A tile fragmented for datagrams of `max_datagram_size` never exceeds it.
pub proof fn tile_fragments_fit(
    inputs: TileFragmentInputs,
    payload: Seq<u8>,
    max_datagram_size: nat,
    i: int,
)
    requires
        max_datagram_size > DATAGRAM_HEADER_SIZE + TILE_HEADER_SIZE,
        0 <= i < chunk_count(
            payload.len(),
            (max_datagram_size - (DATAGRAM_HEADER_SIZE + TILE_HEADER_SIZE)) as nat,
        ),
    ensures
        inputs.fragment(
            payload,
            (max_datagram_size - (DATAGRAM_HEADER_SIZE + TILE_HEADER_SIZE)) as nat,
            i,
        ).len() <= max_datagram_size,
{
    fragment_lengths(
        payload,
        (max_datagram_size - (DATAGRAM_HEADER_SIZE + TILE_HEADER_SIZE)) as nat,
        i,
    );
}

/// Sentinel tile coordinates of a control datagram that carries the frame
/// dimensions instead of pixels.
pub const FRAME_DIMENSIONS_SENTINEL_X: u8 = 0xFF;

pub const FRAME_DIMENSIONS_SENTINEL_Y: u8 = 0xFF;

/// Bit 31 of `frame_seq` tells tile datagrams (1) from frame datagrams (0).
pub const TILE_DATAGRAM_FLAG: u32 = 0x8000_0000;

/// `frame_seq` with the tile bit set.
pub open spec fn tile_flagged(frame_seq: u32) -> u32 {
    if frame_seq >= TILE_DATAGRAM_FLAG {
        frame_seq
    } else {
        (frame_seq + TILE_DATAGRAM_FLAG) as u32
    }
}

/// Sets the tile bit of `frame_seq`.
pub fn with_tile_flag(frame_seq: u32) -> (r: u32)
    ensures
        r == tile_flagged(frame_seq),
        r >= TILE_DATAGRAM_FLAG,
{
    assert(frame_seq | 0x8000_0000u32 == (if frame_seq >= 0x8000_0000u32 {
        frame_seq as int
    } else {
        frame_seq + 0x8000_0000u32
    })) by (bit_vector);
    frame_seq | TILE_DATAGRAM_FLAG
}

/// The inputs of a frame-dimensions datagram.
pub open spec fn frame_dimensions_inputs(frame_seq: u32, timestamp_us: u32) -> TileFragmentInputs {
    TileFragmentInputs {
        frame_seq: tile_flagged(frame_seq),
        tile_x: FRAME_DIMENSIONS_SENTINEL_X,
        tile_y: FRAME_DIMENSIONS_SENTINEL_Y,
        codec: Codec::Skip,
        generation: 0,
        pass: 0,
        timestamp_us,
    }
}

/// The payload of a frame-dimensions datagram: `[width BE][height BE]`.
pub open spec fn frame_dimensions_payload(width: u32, height: u32) -> Seq<u8> {
    wire::be32_bytes(width) + wire::be32_bytes(height)
}

/// The frame-dimensions datagram.
pub open spec fn frame_dimensions_datagram(
    frame_seq: u32,
    timestamp_us: u32,
    width: u32,
    height: u32,
) -> Seq<u8> {
    frame_dimensions_inputs(frame_seq, timestamp_us).fragment(
        frame_dimensions_payload(width, height),
        8,
        0,
    )
}

/// Builds the datagram that tells the client the frame's dimensions: a tile
/// datagram at the sentinel coordinates with the Skip codec, 32 bytes in all.
pub fn build_frame_dimensions_datagram(
    frame_seq: u32,
    timestamp_us: u32,
    width: u32,
    height: u32,
) -> (dg: Vec<u8>)
    ensures
        dg@ == frame_dimensions_datagram(frame_seq, timestamp_us, width, height),
        dg@.len() == 32,
{
    let mut payload: Vec<u8> = Vec::new();
    push_be32(&mut payload, width);
    push_be32(&mut payload, height);
    assert(payload@ =~= frame_dimensions_payload(width, height));
    let inputs = TileFragmentInputs {
        frame_seq: with_tile_flag(frame_seq),
        tile_x: FRAME_DIMENSIONS_SENTINEL_X,
        tile_y: FRAME_DIMENSIONS_SENTINEL_Y,
        codec: Codec::Skip,
        generation: 0,
        pass: 0,
        timestamp_us,
    };
    let mut datagrams: Vec<Vec<u8>> = fragment_tile(&inputs, payload.as_slice(), 8);
    assert(datagrams@.len() == 1);
    assert(datagrams@[0]@ == inputs.fragment(payload@, 8, 0));
    datagrams.swap_remove(0)
}

/// A client reads the announced dimensions back from the datagram, and sees
/// the sentinel coordinates.
pub proof fn frame_dimensions_decode(frame_seq: u32, timestamp_us: u32, width: u32, height: u32)
    ensures
        tile_datagram_parts(
            frame_dimensions_datagram(frame_seq, timestamp_us, width, height),
        ) matches Ok(parts) && parts.0.frame_seq == tile_flagged(frame_seq)
            && parts.0.timestamp_us == timestamp_us && parts.1.tile_x
            == FRAME_DIMENSIONS_SENTINEL_X && parts.1.tile_y == FRAME_DIMENSIONS_SENTINEL_Y
            && parts.1.codec == Codec::Skip && wire::be32_at(parts.2, 0) == width
            && wire::be32_at(parts.2, 4) == height,
{
    let p = frame_dimensions_payload(width, height);
    tile_fragment_decodes(frame_dimensions_inputs(frame_seq, timestamp_us), p, 8, 0);
    assert(chunk(p, 8, 0) =~= p);
    assert(p.subrange(0, 4) =~= wire::be32_bytes(width));
    assert(p.subrange(4, 8) =~= wire::be32_bytes(height));
    wire::be32_within(p, 0, width);
    wire::be32_within(p, 4, height);
}

/// Whether the datagram is a tile-level one: bit 31 of its first word.
pub fn is_tile_datagram(data: &[u8]) -> (b: bool)
    ensures
        b == (data@.len() >= 4 && wire::be32_at(data@, 0) >= TILE_DATAGRAM_FLAG),
{
    if data.len() < 4 {
        return false;
    }
    read_be32(data, 0) >= TILE_DATAGRAM_FLAG
}

// ---------------------------------------------------------------------------
// Full-frame datagrams
// ---------------------------------------------------------------------------

pub const FRAME_HEADER_SIZE: usize = 14;

/// Header of every full-frame datagram.
///
/// ```text
/// [0..4] frame_seq BE | [4..6] frag_idx BE | [6..8] frag_total BE
/// [8..12] timestamp_us BE | [12] flags (bit 0: keyframe) | [13] reserved
/// ```
#[derive(Debug, Clone, Copy, PartialEq, Eq, Structural)]
pub struct FrameHeader {
    pub frame_seq: u32,
    pub frag_idx: u16,
    pub frag_total: u16,
    pub timestamp_us: u32,
    pub flags: u8,
    pub reserved: u8,
}

impl FrameHeader {
    /// The header's fourteen bytes.
    pub open spec fn bytes(self) -> Seq<u8> {
        wire::be32_bytes(self.frame_seq) + wire::be16_bytes(self.frag_idx) + wire::be16_bytes(
            self.frag_total,
        ) + wire::be32_bytes(self.timestamp_us) + seq![self.flags, self.reserved]
    }

    /// The header at the start of `s`.
    pub open spec fn parse(s: Seq<u8>) -> FrameHeader {
        FrameHeader {
            frame_seq: wire::be32_at(s, 0),
            frag_idx: wire::be16_at(s, 4),
            frag_total: wire::be16_at(s, 6),
            timestamp_us: wire::be32_at(s, 8),
            flags: s[12],
            reserved: s[13],
        }
    }

    pub fn encode(&self, buf: &mut Vec<u8>)
        ensures
            final(buf)@ == old(buf)@ + self.bytes(),
    {
        push_be32(buf, self.frame_seq);
        push_be16(buf, self.frag_idx);
        push_be16(buf, self.frag_total);
        push_be32(buf, self.timestamp_us);
        buf.push(self.flags);
        buf.push(self.reserved);
        assert(buf@ =~= old(buf)@ + self.bytes());
    }

    /// Fails exactly when `data` is shorter than the header.
    pub fn decode(data: &[u8]) -> (r: Result<Self, ProtocolError>)
        ensures
            data@.len() < FRAME_HEADER_SIZE ==> r == Err::<FrameHeader, ProtocolError>(
                ProtocolError::TooShort { expected: FRAME_HEADER_SIZE, got: data@.len() as usize },
            ),
            data@.len() >= FRAME_HEADER_SIZE ==> r == Ok::<FrameHeader, ProtocolError>(
                FrameHeader::parse(data@),
            ),
    {
        if data.len() < FRAME_HEADER_SIZE {
            return Err(ProtocolError::TooShort { expected: FRAME_HEADER_SIZE, got: data.len() });
        }
        Ok(
            FrameHeader {
                frame_seq: read_be32(data, 0),
                frag_idx: read_be16(data, 4),
                frag_total: read_be16(data, 6),
                timestamp_us: read_be32(data, 8),
                flags: data[12],
                reserved: data[13],
            },
        )
    }

    /// Whether this datagram is a parity (FEC) fragment: those have
    /// `frag_idx >= frag_total`.
    pub fn is_parity(&self) -> (b: bool)
        ensures
            b == (self.frag_idx >= self.frag_total),
    {
        self.frag_idx >= self.frag_total
    }

    /// Whether the keyframe flag (bit 0) is set.
    pub fn is_keyframe(&self) -> (b: bool)
        ensures
            b == (self.flags % 2 == 1),
    {
        self.flags % 2 != 0
    }
}

/// A frame header is read back from its own bytes, whatever follows them.
pub proof fn frame_header_round_trip(h: FrameHeader, rest: Seq<u8>)
    ensures
        h.bytes().len() == FRAME_HEADER_SIZE,
        FrameHeader::parse(h.bytes() + rest) == h,
{
    let s = h.bytes() + rest;
    assert(s.subrange(0, 4) =~= wire::be32_bytes(h.frame_seq));
    assert(s.subrange(4, 6) =~= wire::be16_bytes(h.frag_idx));
    assert(s.subrange(6, 8) =~= wire::be16_bytes(h.frag_total));
    assert(s.subrange(8, 12) =~= wire::be32_bytes(h.timestamp_us));
    wire::be32_within(s, 0, h.frame_seq);
    wire::be16_within(s, 4, h.frag_idx);
    wire::be16_within(s, 6, h.frag_total);
    wire::be32_within(s, 8, h.timestamp_us);
}

/// One frame datagram from its parts.
fn frame_datagram(fh: FrameHeader, payload: &[u8]) -> (buf: Vec<u8>)
    ensures
        buf@ == fh.bytes() + payload@,
{
    let mut buf: Vec<u8> = Vec::new();
    fh.encode(&mut buf);
    push_bytes(&mut buf, payload);
    assert(buf@ =~= fh.bytes() + payload@);
    buf
}

/// The flags byte of a frame.
pub open spec fn frame_flags(is_keyframe: bool) -> u8 {
    if is_keyframe {
        1
    } else {
        0
    }
}

/// The header of fragment `idx` of `total` of a frame.
pub open spec fn frame_fragment_header(
    frame_seq: u32,
    timestamp_us: u32,
    is_keyframe: bool,
    idx: int,
    total: nat,
) -> FrameHeader {
    FrameHeader {
        frame_seq,
        frag_idx: low16(idx),
        frag_total: low16(total as int),
        timestamp_us,
        flags: frame_flags(is_keyframe),
        reserved: 0,
    }
}

/// Fragment `i` of a frame, header included.
pub open spec fn frame_fragment(
    frame_seq: u32,
    timestamp_us: u32,
    is_keyframe: bool,
    payload: Seq<u8>,
    max: nat,
    i: int,
) -> Seq<u8> {
    frame_fragment_header(
        frame_seq,
        timestamp_us,
        is_keyframe,
        i,
        chunk_count(payload.len(), max),
    ).bytes() + chunk(payload, max, i)
}

/// Fragments a full-frame H.264 payload into datagrams of at most
/// `max_fragment_payload` payload bytes.  An empty payload becomes one
/// datagram with no payload bytes.
pub fn fragment_frame(
    frame_seq: u32,
    timestamp_us: u32,
    is_keyframe: bool,
    payload: &[u8],
    max_fragment_payload: usize,
) -> (out: Vec<Vec<u8>>)
    requires
        max_fragment_payload > 0,
    ensures
        out@.len() == chunk_count(payload@.len(), max_fragment_payload as nat),
        forall|i: int|
            0 <= i < out@.len() ==> (#[trigger] out@[i])@ == frame_fragment(
                frame_seq,
                timestamp_us,
                is_keyframe,
                payload@,
                max_fragment_payload as nat,
                i,
            ),
{
    let flags: u8 = if is_keyframe {
        1
    } else {
        0
    };
    let total: usize = count_chunks(payload.len(), max_fragment_payload);
    let frag_total: u16 = to_low16(total);
    let mut out: Vec<Vec<u8>> = Vec::new();
    let mut idx: usize = 0;
    let mut start: usize = 0;
    while idx < total
        invariant
            max_fragment_payload > 0,
            flags == frame_flags(is_keyframe),
            total == chunk_count(payload@.len(), max_fragment_payload as nat),
            frag_total == low16(total as int),
            idx <= total,
            idx < total ==> start == idx * max_fragment_payload,
            out@.len() == idx,
            forall|i: int|
                0 <= i < idx ==> (#[trigger] out@[i])@ == frame_fragment(
                    frame_seq,
                    timestamp_us,
                    is_keyframe,
                    payload@,
                    max_fragment_payload as nat,
                    i,
                ),
        decreases total - idx,
    {
        proof {
            chunk_bounds(payload@.len(), max_fragment_payload as nat, idx as int);
        }
        let end: usize = chunk_end(payload.len(), max_fragment_payload, start);
        let fh = FrameHeader {
            frame_seq,
            frag_idx: to_low16(idx),
            frag_total,
            timestamp_us,
            flags,
            reserved: 0,
        };
        out.push(frame_datagram(fh, slice_subrange(payload, start, end)));
        start = end;
        idx = idx + 1;
    }
    out
}

/// Splits a frame datagram into its header and its payload; fails exactly when
/// it is shorter than the header.
pub fn decode_frame_datagram(data: &[u8]) -> (r: Result<(FrameHeader, &[u8]), ProtocolError>)
    ensures
        match r {
            Ok(got) => data@.len() >= FRAME_HEADER_SIZE && got.0 == FrameHeader::parse(data@)
                && got.1@ == data@.skip(FRAME_HEADER_SIZE as int),
            Err(e) => data@.len() < FRAME_HEADER_SIZE && e == (ProtocolError::TooShort {
                expected: FRAME_HEADER_SIZE,
                got: data@.len() as usize,
            }),
        },
{
    let fh = match FrameHeader::decode(data) {
        Ok(fh) => fh,
        Err(e) => return Err(e),
    };
    let payload = slice_subrange(data, FRAME_HEADER_SIZE, data.len());
    assert(payload@ =~= data@.skip(FRAME_HEADER_SIZE as int));
    Ok((fh, payload))
}

/// Every fragment of a frame decodes to the header it was built from and to
/// its share of the payload.
pub proof fn frame_fragment_decodes(
    frame_seq: u32,
    timestamp_us: u32,
    is_keyframe: bool,
    payload: Seq<u8>,
    max: nat,
    i: int,
)
    requires
        max > 0,
        0 <= i < chunk_count(payload.len(), max),
    ensures
        ({
            let s = frame_fragment(frame_seq, timestamp_us, is_keyframe, payload, max, i);
            &&& s.len() >= FRAME_HEADER_SIZE
            &&& FrameHeader::parse(s) == frame_fragment_header(
                frame_seq,
                timestamp_us,
                is_keyframe,
                i,
                chunk_count(payload.len(), max),
            )
            &&& s.skip(FRAME_HEADER_SIZE as int) == chunk(payload, max, i)
        }),
{
    let h = frame_fragment_header(
        frame_seq,
        timestamp_us,
        is_keyframe,
        i,
        chunk_count(payload.len(), max),
    );
    let s = frame_fragment(frame_seq, timestamp_us, is_keyframe, payload, max, i);
    frame_header_round_trip(h, chunk(payload, max, i));
    assert(s.skip(FRAME_HEADER_SIZE as int) =~= chunk(payload, max, i));
}

/// The most frame payload bytes that fit in a datagram of `max_datagram_size`.
pub fn max_frame_fragment_payload(max_datagram_size: usize) -> (n: usize)
    ensures
        n == (if max_datagram_size >= FRAME_HEADER_SIZE {
            max_datagram_size - FRAME_HEADER_SIZE
        } else {
            0
        }),
{
    max_datagram_size.saturating_sub(FRAME_HEADER_SIZE)
}

/// The parity datagram of a frame.
pub open spec fn frame_parity_datagram(
    frame_seq: u32,
    timestamp_us: u32,
    is_keyframe: bool,
    frag_total: u16,
    parity_payload: Seq<u8>,
) -> Seq<u8> {
    (FrameHeader {
        frame_seq,
        frag_idx: frag_total,
        frag_total,
        timestamp_us,
        flags: frame_flags(is_keyframe),
        reserved: 0,
    }).bytes() + parity_payload
}

/// Builds a parity datagram for a frame's source fragments; `frag_idx` equal
/// to `frag_total` marks it as parity.
pub fn build_frame_parity_datagram(
    frame_seq: u32,
    timestamp_us: u32,
    is_keyframe: bool,
    frag_total: u16,
    parity_payload: &[u8],
) -> (dg: Vec<u8>)
    ensures
        dg@ == frame_parity_datagram(
            frame_seq,
            timestamp_us,
            is_keyframe,
            frag_total,
            parity_payload@,
        ),
{
    let flags: u8 = if is_keyframe {
        1
    } else {
        0
    };
    let fh = FrameHeader {
        frame_seq,
        frag_idx: frag_total,
        frag_total,
        timestamp_us,
        flags,
        reserved: 0,
    };
    frame_datagram(fh, parity_payload)
}

// ---------------------------------------------------------------------------
// NACK message (client, on a bidirectional stream)
// ---------------------------------------------------------------------------

/// `frame_seq` (4) and `frag_idx` (2).
pub const NACK_SIZE: usize = 6;

/// A client's request for one missing frame fragment.
#[derive(Debug, Clone, Copy, PartialEq, Eq, Structural)]
pub struct NackMessage {
    pub frame_seq: u32,
    pub frag_idx: u16,
}

impl NackMessage {
    /// The message's six bytes.
    pub open spec fn bytes(self) -> Seq<u8> {
        wire::be32_bytes(self.frame_seq) + wire::be16_bytes(self.frag_idx)
    }

    pub fn encode(&self) -> (out: [u8; NACK_SIZE])
        ensures
            out@ == self.bytes(),
    {
        let f: u32 = self.frame_seq;
        let i: u16 = self.frag_idx;
        let out: [u8; NACK_SIZE] = [
            (f / 0x100_0000) as u8,
            (f / 0x1_0000 % 256) as u8,
            (f / 256 % 256) as u8,
            (f % 256) as u8,
            (i / 256) as u8,
            (i % 256) as u8,
        ];
        assert(out@ =~= self.bytes());
        out
    }

    /// Fails exactly when `data` is shorter than the message.
    pub fn decode(data: &[u8]) -> (r: Option<Self>)
        ensures
            data@.len() < NACK_SIZE ==> r is None,
            data@.len() >= NACK_SIZE ==> r == Some(
                (NackMessage {
                    frame_seq: wire::be32_at(data@, 0),
                    frag_idx: wire::be16_at(data@, 4),
                }),
            ),
    {
        if data.len() < NACK_SIZE {
            return None;
        }
        Some(NackMessage { frame_seq: read_be32(data, 0), frag_idx: read_be16(data, 4) })
    }
}

/// A NACK is read back from its own bytes.
pub proof fn nack_round_trip(m: NackMessage)
    ensures
        m.bytes().len() == NACK_SIZE,
        wire::be32_at(m.bytes(), 0) == m.frame_seq,
        wire::be16_at(m.bytes(), 4) == m.frag_idx,
{
    assert(m.bytes().subrange(0, 4) =~= wire::be32_bytes(m.frame_seq));
    assert(m.bytes().subrange(4, 6) =~= wire::be16_bytes(m.frag_idx));
    wire::be32_within(m.bytes(), 0, m.frame_seq);
    wire::be16_within(m.bytes(), 4, m.frag_idx);
}

// ---------------------------------------------------------------------------
// Tile parity envelope
// ---------------------------------------------------------------------------

/// Envelope discriminator of the tile-FEC parity datagram.
pub const TILE_PARITY_ENVELOPE: u8 = 0x04;

/// Size of what precedes the parity payload.
pub const TILE_PARITY_HEADER_SIZE: usize = 9;

/// A parity datagram covering `k` source datagrams from
/// `group_first_wire_seq` on.
///
/// ```text
/// [0] 0x04 | [1..5] group_first_wire_seq BE | [5] k | [6] parity_idx
/// [7..9] group_first_payload_len BE | [9..] parity_payload
/// ```
#[derive(Debug, Clone, PartialEq, Eq)]
pub struct TileParityEnvelope {
    pub group_first_wire_seq: u32,
    pub k: u8,
    /// Index of this parity within the group's parities.
    pub parity_idx: u8,
    /// Length of the first source datagram of the group.
    pub group_first_payload_len: u16,
    /// XOR of the sources, left-padded to the longest one.
    pub parity_payload: Vec<u8>,
}

impl TileParityEnvelope {
    /// The envelope's bytes.
    pub open spec fn bytes(self) -> Seq<u8> {
        seq![TILE_PARITY_ENVELOPE] + wire::be32_bytes(self.group_first_wire_seq) + seq![
            self.k,
            self.parity_idx,
        ] + wire::be16_bytes(self.group_first_payload_len) + self.parity_payload@
    }

    /// Whether this is the envelope that the bytes `s` hold.
    pub open spec fn is_parse_of(self, s: Seq<u8>) -> bool {
        &&& self.group_first_wire_seq == wire::be32_at(s, 1)
        &&& self.k == s[5]
        &&& self.parity_idx == s[6]
        &&& self.group_first_payload_len == wire::be16_at(s, 7)
        &&& self.parity_payload@ == s.skip(TILE_PARITY_HEADER_SIZE as int)
    }

    pub fn encode(&self, buf: &mut Vec<u8>)
        ensures
            final(buf)@ == old(buf)@ + self.bytes(),
    {
        buf.push(TILE_PARITY_ENVELOPE);
        push_be32(buf, self.group_first_wire_seq);
        buf.push(self.k);
        buf.push(self.parity_idx);
        push_be16(buf, self.group_first_payload_len);
        push_bytes(buf, self.parity_payload.as_slice());
        assert(buf@ =~= old(buf)@ + self.bytes());
    }

    /// Fails exactly on a short input or another discriminator.
    pub fn decode(data: &[u8]) -> (r: Result<Self, ProtocolError>)
        ensures
            match r {
                Ok(env) => data@.len() >= TILE_PARITY_HEADER_SIZE && data@[0]
                    == TILE_PARITY_ENVELOPE && env.is_parse_of(data@),
                Err(e) => if data@.len() < TILE_PARITY_HEADER_SIZE {
                    e == (ProtocolError::TooShort {
                        expected: TILE_PARITY_HEADER_SIZE,
                        got: data@.len() as usize,
                    })
                } else {
                    data@[0] != TILE_PARITY_ENVELOPE && e == ProtocolError::UnknownEnvelope(
                        data@[0],
                    )
                },
            },
    {
        if data.len() < TILE_PARITY_HEADER_SIZE {
            return Err(
                ProtocolError::TooShort { expected: TILE_PARITY_HEADER_SIZE, got: data.len() },
            );
        }
        if data[0] != TILE_PARITY_ENVELOPE {
            return Err(ProtocolError::UnknownEnvelope(data[0]));
        }
        let parity_payload: Vec<u8> = copy_range(data, TILE_PARITY_HEADER_SIZE, data.len());
        assert(parity_payload@ =~= data@.skip(TILE_PARITY_HEADER_SIZE as int));
        Ok(
            TileParityEnvelope {
                group_first_wire_seq: read_be32(data, 1),
                k: data[5],
                parity_idx: data[6],
                group_first_payload_len: read_be16(data, 7),
                parity_payload,
            },
        )
    }
}

/// What decoding the bytes of a parity envelope gives has its fields.
pub proof fn tile_parity_round_trip(env: TileParityEnvelope, got: TileParityEnvelope)
    requires
        got.is_parse_of(env.bytes()),
    ensures
        env.bytes().len() >= TILE_PARITY_HEADER_SIZE,
        env.bytes()[0] == TILE_PARITY_ENVELOPE,
        got.group_first_wire_seq == env.group_first_wire_seq,
        got.k == env.k,
        got.parity_idx == env.parity_idx,
        got.group_first_payload_len == env.group_first_payload_len,
        got.parity_payload@ == env.parity_payload@,
{
    let s = env.bytes();
    assert(s.subrange(1, 5) =~= wire::be32_bytes(env.group_first_wire_seq));
    assert(s.subrange(7, 9) =~= wire::be16_bytes(env.group_first_payload_len));
    wire::be32_within(s, 1, env.group_first_wire_seq);
    wire::be16_within(s, 7, env.group_first_payload_len);
    assert(s.skip(TILE_PARITY_HEADER_SIZE as int) =~= env.parity_payload@);
}

// ---------------------------------------------------------------------------
// Tile NACK envelope
// ---------------------------------------------------------------------------

/// Envelope discriminator of the per-fragment NACK datagram.
pub const TILE_NACK_ENVELOPE: u8 = 0x05;

/// Size on the wire of one NACK entry.
pub const TILE_NACK_ENTRY_SIZE: usize = 8;

/// Most NACK entries per datagram.
pub const TILE_NACK_MAX_ENTRIES: usize = 64;

/// One missing fragment reported by the client.
///
/// ```text
/// [0..4] frame_seq LE | [4] tile_x | [5] tile_y | [6] pass_idx | [7] frag_idx
/// ```
#[derive(Debug, Clone, Copy, PartialEq, Eq, Structural)]
pub struct TileNackEntry {
    pub frame_seq: u32,
    pub tile_x: u8,
    pub tile_y: u8,
    pub pass_idx: u8,
    pub frag_idx: u8,
}

impl TileNackEntry {
    /// The entry's eight bytes.
    pub open spec fn bytes(self) -> Seq<u8> {
        wire::le32_bytes(self.frame_seq) + seq![
            self.tile_x,
            self.tile_y,
            self.pass_idx,
            self.frag_idx,
        ]
    }

    /// The entry at offset `off` of `s`.
    pub open spec fn parse(s: Seq<u8>, off: int) -> TileNackEntry {
        TileNackEntry {
            frame_seq: wire::le32_at(s, off),
            tile_x: s[off + 4],
            tile_y: s[off + 5],
            pass_idx: s[off + 6],
            frag_idx: s[off + 7],
        }
    }
}

/// The bytes of `entries`, one after the other.
pub open spec fn nack_entries_bytes(entries: Seq<TileNackEntry>) -> Seq<u8>
    decreases entries.len(),
{
    if entries.len() == 0 {
        Seq::empty()
    } else {
        nack_entries_bytes(entries.drop_last()) + entries.last().bytes()
    }
}

/// The bytes of a NACK envelope: discriminator, count, entries.
pub open spec fn nack_envelope_bytes(entries: Seq<TileNackEntry>) -> Seq<u8> {
    seq![TILE_NACK_ENVELOPE, (entries.len() % 256) as u8] + nack_entries_bytes(entries)
}

/// A batch of missing fragments reported by the client.
#[derive(Debug, Clone, PartialEq, Eq)]
pub struct TileNackEnvelope {
    pub entries: Vec<TileNackEntry>,
}

impl TileNackEnvelope {
    /// Encodes all entries; there are at most `TILE_NACK_MAX_ENTRIES`.  Use
    /// `encode_clamped` where there may be more.
    pub fn encode(&self, buf: &mut Vec<u8>)
        requires
            self.entries@.len() <= TILE_NACK_MAX_ENTRIES,
        ensures
            final(buf)@ == old(buf)@ + nack_envelope_bytes(self.entries@),
    {
        Self::write(buf, self.entries.as_slice(), self.entries.len());
        assert(self.entries@.take(self.entries@.len() as int) =~= self.entries@);
    }

    /// Encodes at most `TILE_NACK_MAX_ENTRIES` entries; returns the number
    /// written.
    pub fn encode_clamped(&self, buf: &mut Vec<u8>) -> (n: usize)
        ensures
            n == (if self.entries@.len() <= TILE_NACK_MAX_ENTRIES {
                self.entries@.len() as int
            } else {
                TILE_NACK_MAX_ENTRIES as int
            }),
            final(buf)@ == old(buf)@ + nack_envelope_bytes(self.entries@.take(n as int)),
    {
        let n: usize = if self.entries.len() <= TILE_NACK_MAX_ENTRIES {
            self.entries.len()
        } else {
            TILE_NACK_MAX_ENTRIES
        };
        Self::write(buf, self.entries.as_slice(), n);
        n
    }

    /// Appends the envelope of the first `n` entries.
    fn write(buf: &mut Vec<u8>, entries: &[TileNackEntry], n: usize)
        requires
            n <= entries@.len(),
            n <= TILE_NACK_MAX_ENTRIES,
        ensures
            final(buf)@ == old(buf)@ + nack_envelope_bytes(entries@.take(n as int)),
    {
        buf.push(TILE_NACK_ENVELOPE);
        buf.push(n as u8);
        let ghost head = buf@;
        assert(nack_entries_bytes(entries@.take(0)) =~= Seq::empty());
        let mut i: usize = 0;
        while i < n
            invariant
                i <= n <= entries@.len(),
                n <= TILE_NACK_MAX_ENTRIES,
                buf@ == head + nack_entries_bytes(entries@.take(i as int)),
            decreases n - i,
        {
            let e = entries[i];
            push_le32(buf, e.frame_seq);
            buf.push(e.tile_x);
            buf.push(e.tile_y);
            buf.push(e.pass_idx);
            buf.push(e.frag_idx);
            i = i + 1;
            assert(entries@.take(i as int).drop_last() =~= entries@.take(i - 1));
            assert(entries@.take(i as int).last() == e);
            assert(buf@ =~= head + nack_entries_bytes(entries@.take(i as int)));
        }
        assert(buf@ =~= old(buf)@ + nack_envelope_bytes(entries@.take(n as int)));
    }

    /// Fails, in this order, on fewer than two bytes, on another
    /// discriminator, on a count above the maximum, and on missing entries;
    /// and on nothing else.
    pub fn decode(data: &[u8]) -> (r: Result<Self, ProtocolError>)
        ensures
            match r {
                Ok(env) => data@.len() >= 2 && data@[0] == TILE_NACK_ENVELOPE && data@[1]
                    <= TILE_NACK_MAX_ENTRIES && data@.len() >= 2 + data@[1] * TILE_NACK_ENTRY_SIZE
                    && env.entries@ == Seq::new(
                    data@[1] as nat,
                    |i: int| TileNackEntry::parse(data@, 2 + i * TILE_NACK_ENTRY_SIZE),
                ),
                Err(e) => if data@.len() < 2 {
                    e == (ProtocolError::TooShort { expected: 2, got: data@.len() as usize })
                } else if data@[0] != TILE_NACK_ENVELOPE {
                    e == ProtocolError::UnknownEnvelope(data@[0])
                } else if data@[1] > TILE_NACK_MAX_ENTRIES {
                    e == ProtocolError::InvalidLength
                } else {
                    &&& data@.len() < 2 + data@[1] * TILE_NACK_ENTRY_SIZE
                    &&& e == (ProtocolError::TooShort {
                        expected: (2 + data@[1] * TILE_NACK_ENTRY_SIZE) as usize,
                        got: data@.len() as usize,
                    })
                },
            },
    {
        if data.len() < 2 {
            return Err(ProtocolError::TooShort { expected: 2, got: data.len() });
        }
        if data[0] != TILE_NACK_ENVELOPE {
            return Err(ProtocolError::UnknownEnvelope(data[0]));
        }
        let count: usize = data[1] as usize;
        if count > TILE_NACK_MAX_ENTRIES {
            return Err(ProtocolError::InvalidLength);
        }
        let expected: usize = 2 + count * TILE_NACK_ENTRY_SIZE;
        if data.len() < expected {
            return Err(ProtocolError::TooShort { expected, got: data.len() });
        }
        let mut entries: Vec<TileNackEntry> = Vec::new();
        let mut i: usize = 0;
        while i < count
            invariant
                i <= count <= TILE_NACK_MAX_ENTRIES,
                data@.len() >= 2 + count * TILE_NACK_ENTRY_SIZE,
                entries@ == Seq::new(
                    i as nat,
                    |j: int| TileNackEntry::parse(data@, 2 + j * TILE_NACK_ENTRY_SIZE),
                ),
            decreases count - i,
        {
            let off: usize = 2 + i * TILE_NACK_ENTRY_SIZE;
            entries.push(
                TileNackEntry {
                    frame_seq: read_le32(data, off),
                    tile_x: data[off + 4],
                    tile_y: data[off + 5],
                    pass_idx: data[off + 6],
                    frag_idx: data[off + 7],
                },
            );
            i = i + 1;
            assert(entries@ =~= Seq::new(
                i as nat,
                |j: int| TileNackEntry::parse(data@, 2 + j * TILE_NACK_ENTRY_SIZE),
            ));
        }
        Ok(TileNackEnvelope { entries })
    }
}

/// Entry `i` stands at byte `8 * i` of the encoded entries.
proof fn nack_entries_at(entries: Seq<TileNackEntry>, i: int)
    requires
        0 <= i < entries.len(),
    ensures
        nack_entries_bytes(entries).len() == entries.len() * TILE_NACK_ENTRY_SIZE,
        nack_entries_bytes(entries).subrange(i * 8, i * 8 + 8) == entries[i].bytes(),
    decreases entries.len(),
{
    let front = entries.drop_last();
    let all = nack_entries_bytes(entries);
    if front.len() == 0 {
        assert(nack_entries_bytes(front) =~= Seq::empty());
        assert(all.subrange(0, 8) =~= entries[0].bytes());
    } else if i < front.len() {
        nack_entries_at(front, i);
        assert(all.subrange(i * 8, i * 8 + 8) =~= nack_entries_bytes(front).subrange(
            i * 8,
            i * 8 + 8,
        ));
    } else {
        nack_entries_at(front, 0);
        assert(all.subrange(i * 8, i * 8 + 8) =~= entries[i].bytes());
    }
}

/// Decoding an encoded NACK envelope gives its entries back.
pub proof fn nack_envelope_round_trip(entries: Seq<TileNackEntry>)
    requires
        entries.len() <= TILE_NACK_MAX_ENTRIES,
    ensures
        ({
            let s = nack_envelope_bytes(entries);
            &&& s.len() == 2 + entries.len() * TILE_NACK_ENTRY_SIZE
            &&& s[0] == TILE_NACK_ENVELOPE
            &&& s[1] == entries.len()
            &&& entries == Seq::new(
                s[1] as nat,
                |i: int| TileNackEntry::parse(s, 2 + i * TILE_NACK_ENTRY_SIZE),
            )
        }),
{
    let s = nack_envelope_bytes(entries);
    if entries.len() > 0 {
        nack_entries_at(entries, 0);
    } else {
        assert(nack_entries_bytes(entries) =~= Seq::empty());
    }
    assert forall|i: int| 0 <= i < entries.len() implies #[trigger] entries[i]
        == TileNackEntry::parse(s, 2 + i * TILE_NACK_ENTRY_SIZE) by {
        nack_entries_at(entries, i);
        let off = 2 + i * 8;
        let e = entries[i];
        assert(s.subrange(off, off + 8) =~= nack_entries_bytes(entries).subrange(
            i * 8,
            i * 8 + 8,
        ));
        let t = s.subrange(off, off + 8);
        assert(s.subrange(off, off + 4) =~= t.subrange(0, 4));
        assert(t.subrange(0, 4) =~= wire::le32_bytes(e.frame_seq));
        wire::le32_within(s, off, e.frame_seq);
        assert(t[4] == s[off + 4] && t[5] == s[off + 5] && t[6] == s[off + 6] && t[7] == s[off
            + 7]);
    }
    assert(entries =~= Seq::new(
        s[1] as nat,
        |i: int| TileNackEntry::parse(s, 2 + i * TILE_NACK_ENTRY_SIZE),
    ));
}

// ---------------------------------------------------------------------------
// Inbound classification
// ---------------------------------------------------------------------------

/// What an inbound datagram is, by its first byte.
#[derive(Debug, Clone, Copy, PartialEq, Eq, Structural)]
pub enum InboundKind {
    Empty,
    Unknown,
    /// `0x01`
    Hello,
    /// `0x02` (deprecated, still routed)
    AckBatchV1,
    /// `0x03`
    AckBatch,
    /// `0x04`
    TileParity,
    /// `0x05`
    TileNack,
    /// `0x10..=0x7F`
    FrameFragment,
    /// `0x80..=0xFF`: the tile bit is set
    TileFragment,
}

/// The kind that a first byte announces.
pub open spec fn kind_of_first_byte(b: u8) -> InboundKind {
    if b == 0x01 {
        InboundKind::Hello
    } else if b == 0x02 {
        InboundKind::AckBatchV1
    } else if b == 0x03 {
        InboundKind::AckBatch
    } else if b == TILE_PARITY_ENVELOPE {
        InboundKind::TileParity
    } else if b == TILE_NACK_ENVELOPE {
        InboundKind::TileNack
    } else if b < 0x10 {
        InboundKind::Unknown
    } else if b < 0x80 {
        InboundKind::FrameFragment
    } else {
        InboundKind::TileFragment
    }
}

pub fn classify_inbound(data: &[u8]) -> (kind: InboundKind)
    ensures
        kind == (if data@.len() == 0 {
            InboundKind::Empty
        } else {
            kind_of_first_byte(data@[0])
        }),
{
    if data.len() == 0 {
        return InboundKind::Empty;
    }
    let first: u8 = data[0];
    if first == 0x01 {
        InboundKind::Hello
    } else if first == 0x02 {
        InboundKind::AckBatchV1
    } else if first == 0x03 {
        InboundKind::AckBatch
    } else if first == TILE_PARITY_ENVELOPE {
        InboundKind::TileParity
    } else if first == TILE_NACK_ENVELOPE {
        InboundKind::TileNack
    } else if first < 0x10 {
        InboundKind::Unknown
    } else if first < 0x80 {
        InboundKind::FrameFragment
    } else {
        InboundKind::TileFragment
    }
}

/// A byte string of at least four bytes is classified as a tile fragment
/// exactly when its first word has the tile bit.
pub proof fn tile_bit_is_the_first_byte(s: Seq<u8>)
    requires
        s.len() >= 4,
    ensures
        kind_of_first_byte(s[0]) == InboundKind::TileFragment <==> wire::be32_at(s, 0)
            >= TILE_DATAGRAM_FLAG,
{
}

/// Both envelopes are classified as what they are.
pub proof fn envelopes_are_classified(env: TileParityEnvelope, entries: Seq<TileNackEntry>)
    ensures
        kind_of_first_byte(env.bytes()[0]) == InboundKind::TileParity,
        kind_of_first_byte(nack_envelope_bytes(entries)[0]) == InboundKind::TileNack,
{
}

} // verus!
