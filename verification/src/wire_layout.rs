//! Where the bytes of each message lie, told byte by byte.
use crate::ack;
use crate::ack::AckEntry;
use crate::client_caps::ClientCapabilities;
use crate::decode_error::DecodeErrorMsg;
use crate::display::{DisplayInfoMsg, DisplayModeMsg};
use crate::input_inject;
use crate::input_inject::InputMsg;
use crate::protocol;
use crate::protocol::{
    Codec, DatagramHeader, FrameHeader, NackMessage, TileHeader, TileNackEntry,
    TileParityEnvelope,
};
use crate::wire;
use vstd::prelude::*;

verus! {

/// A number of two bytes, the heavier first.
pub open spec fn big16(s: Seq<u8>, i: int) -> int {
    s[i] * 256 + s[i + 1]
}

/// A number of four bytes, the heaviest first.
pub open spec fn big32(s: Seq<u8>, i: int) -> int {
    s[i] * 16777216 + s[i + 1] * 65536 + s[i + 2] * 256 + s[i + 3]
}

/// A number of two bytes, the lighter first.
pub open spec fn little16(s: Seq<u8>, i: int) -> int {
    s[i] + s[i + 1] * 256
}

/// A number of four bytes, the lightest first.
pub open spec fn little32(s: Seq<u8>, i: int) -> int {
    s[i] + s[i + 1] * 256 + s[i + 2] * 65536 + s[i + 3] * 16777216
}

/// Numbers are written in the order of bytes that their name says.
pub proof fn numbers_are_written_in_order(x: u16, y: u32)
    ensures
        wire::be16_bytes(x).len() == 2 && big16(wire::be16_bytes(x), 0) == x,
        wire::be32_bytes(y).len() == 4 && big32(wire::be32_bytes(y), 0) == y,
        wire::le16_bytes(x).len() == 2 && little16(wire::le16_bytes(x), 0) == x,
        wire::le32_bytes(y).len() == 4 && little32(wire::le32_bytes(y), 0) == y,
{
}

/// And they are read in that order.
pub proof fn numbers_are_read_in_order(s: Seq<u8>, i: int)
    ensures
        wire::be16_at(s, i) == big16(s, i),
        wire::be32_at(s, i) == big32(s, i),
        wire::le16_at(s, i) == little16(s, i),
        wire::le32_at(s, i) == little32(s, i),
        big16(s, i) < 0x8000 ==> wire::signed16(wire::be16_at(s, i)) == big16(s, i),
        big16(s, i) >= 0x8000 ==> wire::signed16(wire::be16_at(s, i)) == big16(s, i) - 0x1_0000,
{
}

proof fn big16_inside(pre: Seq<u8>, x: u16, post: Seq<u8>)
    ensures
        big16(pre + wire::be16_bytes(x) + post, pre.len() as int) == x,
{
    let s = pre + wire::be16_bytes(x) + post;
    let n = pre.len() as int;
    assert(s[n] == wire::be16_bytes(x)[0]);
    assert(s[n + 1] == wire::be16_bytes(x)[1]);
}

proof fn big32_inside(pre: Seq<u8>, x: u32, post: Seq<u8>)
    ensures
        big32(pre + wire::be32_bytes(x) + post, pre.len() as int) == x,
{
    let s = pre + wire::be32_bytes(x) + post;
    let n = pre.len() as int;
    let b = wire::be32_bytes(x);
    assert(s[n] == b[0] && s[n + 1] == b[1] && s[n + 2] == b[2] && s[n + 3] == b[3]);
    numbers_are_written_in_order(0, x);
}

/// The header of a tile datagram: sixteen bytes.
pub proof fn datagram_header_layout(h: DatagramHeader)
    ensures
        ({
            let s = h.bytes();
            &&& s.len() == 16
            &&& big32(s, 0) == h.frame_seq
            &&& big16(s, 4) == h.frag_idx
            &&& big16(s, 6) == h.frag_total
            &&& big32(s, 8) == h.wire_seq
            &&& big32(s, 12) == h.timestamp_us
        }),
{
    let a = wire::be32_bytes(h.frame_seq);
    let b = wire::be16_bytes(h.frag_idx);
    let c = wire::be16_bytes(h.frag_total);
    let d = wire::be32_bytes(h.wire_seq);
    let e = wire::be32_bytes(h.timestamp_us);
    let s = h.bytes();
    let none = Seq::<u8>::empty();
    assert(s =~= none + a + (b + c + d + e));
    big32_inside(none, h.frame_seq, b + c + d + e);
    assert(s =~= a + b + (c + d + e));
    big16_inside(a, h.frag_idx, c + d + e);
    assert(s =~= (a + b) + c + (d + e));
    big16_inside(a + b, h.frag_total, d + e);
    assert(s =~= (a + b + c) + d + e);
    big32_inside(a + b + c, h.wire_seq, e);
    assert(s =~= (a + b + c + d) + e + none);
    big32_inside(a + b + c + d, h.timestamp_us, none);
}

/// Reading a tile datagram's header takes the same places.
pub proof fn datagram_header_is_read_there(s: Seq<u8>)
    ensures
        ({
            let h = DatagramHeader::parse(s);
            &&& h.frame_seq == big32(s, 0)
            &&& h.frag_idx == big16(s, 4)
            &&& h.frag_total == big16(s, 6)
            &&& h.wire_seq == big32(s, 8)
            &&& h.timestamp_us == big32(s, 12)
        }),
{
}

/// The numbers of the codecs.
pub proof fn codec_numbers()
    ensures
        Codec::Skip.code() == 0,
        Codec::H264.code() == 1,
        Codec::PalRle.code() == 2,
        Codec::Solid.code() == 3,
        Codec::Raw.code() == 4,
        Codec::Cdf53.code() == 5,
        forall|c: Codec| #[trigger] Codec::of_code(c.code()) == c,
{
}

/// The header of a tile: eight bytes, the codec above the compression bit and
/// the generation above the pass.
pub proof fn tile_header_layout(h: TileHeader)
    requires
        h.generation < 16,
        h.pass < 16,
    ensures
        ({
            let s = h.bytes();
            &&& s.len() == 8
            &&& s[0] == h.tile_x
            &&& s[1] == h.tile_y
            &&& s[2] / 2 == h.codec.code()
            &&& s[2] % 2 == 1 <==> h.lz4
            &&& s[3] / 16 == h.generation
            &&& s[3] % 16 == h.pass
            &&& big32(s, 4) == h.payload_len
        }),
{
}

/// Reading a tile's header takes the same places, and an unknown codec is
/// refused by its number.
pub proof fn tile_header_is_read_there(s: Seq<u8>)
    requires
        s.len() >= 8,
    ensures
        s[2] / 2 > 5 ==> TileHeader::parse(s) == Err::<TileHeader, protocol::ProtocolError>(
            protocol::ProtocolError::UnknownCodec(s[2] / 2),
        ),
        s[2] / 2 <= 5 ==> (TileHeader::parse(s) matches Ok(h) && h.tile_x == s[0] && h.tile_y
            == s[1] && h.codec.code() == s[2] / 2 && (h.lz4 <==> s[2] % 2 == 1) && h.generation
            == s[3] / 16 && h.pass == s[3] % 16 && h.payload_len == big32(s, 4)),
{
}

/// The header of a full-frame datagram: fourteen bytes.
pub proof fn frame_header_layout(h: FrameHeader)
    ensures
        ({
            let b = h.bytes();
            &&& b.len() == 14
            &&& big32(b, 0) == h.frame_seq
            &&& big16(b, 4) == h.frag_idx
            &&& big16(b, 6) == h.frag_total
            &&& big32(b, 8) == h.timestamp_us
            &&& b[12] == h.flags
            &&& b[13] == h.reserved
        }),
{
    let a = wire::be32_bytes(h.frame_seq);
    let b = wire::be16_bytes(h.frag_idx);
    let c = wire::be16_bytes(h.frag_total);
    let d = wire::be32_bytes(h.timestamp_us);
    let e = seq![h.flags, h.reserved];
    let s = h.bytes();
    let none = Seq::<u8>::empty();
    assert(s =~= none + a + (b + c + d + e));
    big32_inside(none, h.frame_seq, b + c + d + e);
    assert(s =~= a + b + (c + d + e));
    big16_inside(a, h.frag_idx, c + d + e);
    assert(s =~= (a + b) + c + (d + e));
    big16_inside(a + b, h.frag_total, d + e);
    assert(s =~= (a + b + c) + d + e);
    big32_inside(a + b + c, h.timestamp_us, e);
    assert(s[12] == e[0] && s[13] == e[1]);
}

/// Reading a full-frame datagram's header takes the same places.
pub proof fn frame_header_is_read_there(s: Seq<u8>)
    ensures
        ({
            let p = FrameHeader::parse(s);
            &&& p.frame_seq == big32(s, 0)
            &&& p.frag_idx == big16(s, 4)
            &&& p.frag_total == big16(s, 6)
            &&& p.timestamp_us == big32(s, 8)
            &&& p.flags == s[12]
            &&& p.reserved == s[13]
        }),
{
}

/// A fragment of a full frame: its header tells its place, the number of
/// fragments and whether the frame is a key frame.
pub proof fn frame_fragment_layout(
    frame_seq: u32,
    timestamp_us: u32,
    key: bool,
    payload: Seq<u8>,
    max: nat,
    i: int,
)
    requires
        max > 0,
        0 <= i < protocol::chunk_count(payload.len(), max) <= 0xFFFF,
    ensures
        ({
            let s = protocol::frame_fragment(frame_seq, timestamp_us, key, payload, max, i);
            &&& s.len() >= 14
            &&& big32(s, 0) == frame_seq
            &&& big16(s, 4) == i
            &&& big16(s, 6) == protocol::chunk_count(payload.len(), max)
            &&& big32(s, 8) == timestamp_us
            &&& s[12] % 2 == 1 <==> key
            &&& s.skip(14) == protocol::chunk(payload, max, i)
        }),
{
    let c = protocol::chunk(payload, max, i);
    let n = protocol::chunk_count(payload.len(), max);
    let h = protocol::frame_fragment_header(frame_seq, timestamp_us, key, i, n);
    frame_header_layout(h);
    let s = protocol::frame_fragment(frame_seq, timestamp_us, key, payload, max, i);
    assert(s.skip(14) =~= c);
}

/// The parity of a full frame bears a number past the last fragment.
pub proof fn frame_parity_layout(
    frame_seq: u32,
    timestamp_us: u32,
    key: bool,
    total: u16,
    parity: Seq<u8>,
)
    ensures
        ({
            let s = protocol::frame_parity_datagram(frame_seq, timestamp_us, key, total, parity);
            &&& s.len() == 14 + parity.len()
            &&& big32(s, 0) == frame_seq
            &&& big16(s, 4) >= big16(s, 6)
            &&& big16(s, 6) == total
            &&& big32(s, 8) == timestamp_us
            &&& s[12] % 2 == 1 <==> key
            &&& s.skip(14) == parity
        }),
{
    let h = FrameHeader {
        frame_seq,
        frag_idx: total,
        frag_total: total,
        timestamp_us,
        flags: protocol::frame_flags(key),
        reserved: 0,
    };
    frame_header_layout(h);
    let b = h.bytes();
    let s = protocol::frame_parity_datagram(frame_seq, timestamp_us, key, total, parity);
    assert(s == b + parity);
    assert forall|i: int| 0 <= i < 14 implies s[i] == b[i] by {}
    assert(s.skip(14) =~= parity);
}

/// The flag of tile datagrams is the first bit of the number; the rest of the
/// number stays.
pub proof fn the_first_bit_marks_tiles(n: u32)
    ensures
        protocol::tile_flagged(n) >= 0x8000_0000,
        protocol::tile_flagged(n) % 0x8000_0000 == n % 0x8000_0000,
{
}

/// A request for a fragment of a frame: six bytes.
pub proof fn nack_layout(m: NackMessage)
    ensures
        m.bytes().len() == 6,
        big32(m.bytes(), 0) == m.frame_seq,
        big16(m.bytes(), 4) == m.frag_idx,
{
}

/// The parity of a group of tile datagrams: nine bytes and the parity.
pub proof fn tile_parity_layout(e: TileParityEnvelope, s: Seq<u8>)
    ensures
        ({
            let b = e.bytes();
            &&& b.len() == 9 + e.parity_payload@.len()
            &&& b[0] == 4
            &&& big32(b, 1) == e.group_first_wire_seq
            &&& b[5] == e.k
            &&& b[6] == e.parity_idx
            &&& big16(b, 7) == e.group_first_payload_len
            &&& b.skip(9) == e.parity_payload@
        }),
        e.is_parse_of(s) <==> {
            &&& e.group_first_wire_seq == big32(s, 1)
            &&& e.k == s[5]
            &&& e.parity_idx == s[6]
            &&& e.group_first_payload_len == big16(s, 7)
            &&& e.parity_payload@ == s.skip(9)
        },
{
    let a = seq![protocol::TILE_PARITY_ENVELOPE];
    let b = wire::be32_bytes(e.group_first_wire_seq);
    let c = seq![e.k, e.parity_idx];
    let d = wire::be16_bytes(e.group_first_payload_len);
    let p = e.parity_payload@;
    assert(e.bytes() =~= a + b + (c + d + p));
    big32_inside(a, e.group_first_wire_seq, c + d + p);
    assert(e.bytes() =~= (a + b + c) + d + p);
    big16_inside(a + b + c, e.group_first_payload_len, p);
    assert(e.bytes()[5] == c[0] && e.bytes()[6] == c[1]);
    assert(e.bytes().skip(9) =~= p);
}

/// A request for a tile fragment: eight bytes, lighter bytes first.
pub proof fn tile_nack_entry_layout(e: TileNackEntry, s: Seq<u8>, off: int)
    ensures
        ({
            let b = e.bytes();
            &&& b.len() == 8
            &&& little32(b, 0) == e.frame_seq
            &&& b[4] == e.tile_x
            &&& b[5] == e.tile_y
            &&& b[6] == e.pass_idx
            &&& b[7] == e.frag_idx
        }),
        ({
            let p = TileNackEntry::parse(s, off);
            &&& p.frame_seq == little32(s, off)
            &&& p.tile_x == s[off + 4]
            &&& p.tile_y == s[off + 5]
            &&& p.pass_idx == s[off + 6]
            &&& p.frag_idx == s[off + 7]
        }),
{
}

/// Requests for tile fragments travel one behind the other, behind their type
/// and their number.
pub proof fn tile_nacks_follow_each_other(a: Seq<TileNackEntry>, b: Seq<TileNackEntry>, e: TileNackEntry)
    ensures
        protocol::nack_entries_bytes(a + b) == protocol::nack_entries_bytes(a)
            + protocol::nack_entries_bytes(b),
        protocol::nack_entries_bytes(seq![e]) == e.bytes(),
        a.len() <= 255 ==> protocol::nack_envelope_bytes(a)[0] == 5 && protocol::nack_envelope_bytes(
            a,
        )[1] == a.len() && protocol::nack_envelope_bytes(a).skip(2) == protocol::nack_entries_bytes(
            a,
        ),
    decreases b.len(),
{
    reveal_with_fuel(protocol::nack_entries_bytes, 2);
    assert(seq![e].drop_last() =~= Seq::empty());
    assert(seq![e].last() == e);
    assert(Seq::<u8>::empty() + e.bytes() =~= e.bytes());
    assert(protocol::nack_envelope_bytes(a).skip(2) =~= protocol::nack_entries_bytes(a));
    if b.len() == 0 {
        assert(a + b =~= a);
        assert(protocol::nack_entries_bytes(a) + protocol::nack_entries_bytes(b)
            =~= protocol::nack_entries_bytes(a));
    } else {
        assert((a + b).drop_last() =~= a + b.drop_last());
        assert((a + b).last() == b.last());
        tile_nacks_follow_each_other(a, b.drop_last(), e);
        assert(protocol::nack_entries_bytes(a + b) =~= protocol::nack_entries_bytes(a)
            + protocol::nack_entries_bytes(b));
    }
}

/// An acknowledgement: nine bytes, lighter bytes first.
pub proof fn ack_entry_layout(e: AckEntry, s: Seq<u8>, off: int)
    ensures
        ({
            let b = e.bytes();
            &&& b.len() == 9
            &&& little32(b, 0) == e.frame_seq
            &&& b[4] == e.tile_x
            &&& b[5] == e.tile_y
            &&& b[6] == e.pass_idx
            &&& little16(b, 7) == e.arrival_time_ms_lo16
        }),
        ({
            let p = AckEntry::parse(s, off);
            &&& p.frame_seq == little32(s, off)
            &&& p.tile_x == s[off + 4]
            &&& p.tile_y == s[off + 5]
            &&& p.pass_idx == s[off + 6]
            &&& p.arrival_time_ms_lo16 == little16(s, off + 7)
        }),
{
}

/// A batch holds one to 72 acknowledgements; what else claims to be one is
/// refused, and what is behind the last is not looked at.
pub proof fn ack_batches_are_bounded(s: Seq<u8>)
    ensures
        ack::batch_of(s) is Ok <==> s.len() >= 2 && s[0] == 4 && 1 <= s[1] <= 72 && s.len() >= 2
            + 9 * s[1],
        ack::batch_of(s) is Ok ==> ack::batch_of(s)->Ok_0.len() == s[1],
        ack::batch_of(s) is Ok ==> forall|i: int|
            0 <= i < s[1] ==> #[trigger] ack::batch_of(s)->Ok_0[i] == AckEntry::parse(s, 2 + 9 * i),
        s.len() < 2 ==> ack::batch_of(s) == Err::<Seq<AckEntry>, ack::AckDecodeError>(
            ack::AckDecodeError::TooShort(s.len() as usize),
        ),
        s.len() >= 2 && s[0] != 4 ==> ack::batch_of(s) == Err::<
            Seq<AckEntry>,
            ack::AckDecodeError,
        >(ack::AckDecodeError::WrongMsgType(s[0])),
        s.len() >= 2 && s[0] == 4 && (s[1] == 0 || s[1] > 72) ==> ack::batch_of(s) == Err::<
            Seq<AckEntry>,
            ack::AckDecodeError,
        >(ack::AckDecodeError::InvalidCount(s[1])),
{
}

/// Acknowledgements travel one behind the other, behind their type and their
/// number.
pub proof fn acks_follow_each_other(a: Seq<AckEntry>, b: Seq<AckEntry>, e: AckEntry)
    ensures
        ack::entries_bytes(a + b) == ack::entries_bytes(a) + ack::entries_bytes(b),
        ack::entries_bytes(seq![e]) == e.bytes(),
        a.len() <= 255 ==> ack::batch_bytes(a)[0] == 4 && ack::batch_bytes(a)[1] == a.len()
            && ack::batch_bytes(a).skip(2) == ack::entries_bytes(a),
    decreases b.len(),
{
    reveal_with_fuel(ack::entries_bytes, 2);
    assert(seq![e].drop_last() =~= Seq::empty());
    assert(seq![e].last() == e);
    assert(Seq::<u8>::empty() + e.bytes() =~= e.bytes());
    assert(ack::batch_bytes(a).skip(2) =~= ack::entries_bytes(a));
    if b.len() == 0 {
        assert(a + b =~= a);
        assert(ack::entries_bytes(a) + ack::entries_bytes(b) =~= ack::entries_bytes(a));
    } else {
        assert((a + b).drop_last() =~= a + b.drop_last());
        assert((a + b).last() == b.last());
        acks_follow_each_other(a, b.drop_last(), e);
        assert(ack::entries_bytes(a + b) =~= ack::entries_bytes(a) + ack::entries_bytes(b));
    }
}

/// What a client can do, bit by bit.
pub proof fn capability_bits(c: ClientCapabilities, b: u8)
    ensures
        c.byte() % 2 == 1 <==> c.indices_raw_enabled,
        c.byte() / 2 == 1 <==> c.supports_h264,
        c.byte() < 4,
        ClientCapabilities::of_byte(b).indices_raw_enabled <==> b % 2 == 1,
        ClientCapabilities::of_byte(b).supports_h264 <==> b / 2 % 2 == 1,
{
}

/// What a client says of its display.
pub proof fn display_layout(m: DisplayInfoMsg, d: DisplayModeMsg, s: Seq<u8>)
    ensures
        ({
            let b = m.bytes();
            &&& b.len() == 11 && b[0] == 7
            &&& big16(b, 1) == m.max_width
            &&& big16(b, 3) == m.max_height
            &&& big16(b, 5) == m.scale_milli
            &&& big16(b, 7) == m.mm_width
            &&& big16(b, 9) == m.mm_height
        }),
        ({
            let b = d.bytes();
            &&& b.len() == 5 && b[0] == 8
            &&& big16(b, 1) == d.width
            &&& big16(b, 3) == d.height
        }),
        DisplayInfoMsg::parse(s) is Some <==> s.len() >= 11 && s[0] == 7,
        DisplayInfoMsg::parse(s) matches Some(p) ==> p.max_width == big16(s, 1) && p.max_height
            == big16(s, 3) && p.scale_milli == big16(s, 5) && p.mm_width == big16(s, 7)
            && p.mm_height == big16(s, 9),
        DisplayModeMsg::parse(s) is Some <==> s.len() >= 5 && s[0] == 8,
        DisplayModeMsg::parse(s) matches Some(p) ==> p.width == big16(s, 1) && p.height == big16(
            s,
            3,
        ),
{
}

/// What a client says of a tile it could not decode.
pub proof fn decode_error_layout(m: DecodeErrorMsg, s: Seq<u8>)
    ensures
        m.bytes() == seq![4u8, m.codec, m.tile_x, m.tile_y, m.error_code],
        DecodeErrorMsg::parse(s) is Some <==> s.len() >= 5 && s[0] == 4,
        DecodeErrorMsg::parse(s) matches Some(p) ==> p.codec == s[1] && p.tile_x == s[2]
            && p.tile_y == s[3] && p.error_code == s[4],
{
}

/// A sixteen-bit place on the screen, below zero from 32768 on.
pub open spec fn place16(s: Seq<u8>, i: int) -> int {
    if big16(s, i) < 32768 {
        big16(s, i)
    } else {
        big16(s, i) - 65536
    }
}

/// What a client does: the second byte tells the kind and with it the length.
pub proof fn input_layout(s: Seq<u8>)
    requires
        s.len() >= 8,
        s[0] == 5,
    ensures
        s[1] == 1 ==> (input_inject::parse_input(s) matches Some((
            InputMsg::PointerMove { x, y },
            n,
        )) && n == 6 && x == place16(s, 2) && y == place16(s, 4)),
        s[1] == 2 ==> (input_inject::parse_input(s) matches Some((
            InputMsg::PointerButton { x, y, button, down },
            n,
        )) && n == 8 && x == place16(s, 2) && y == place16(s, 4) && button == s[6] && (down
            <==> s[7] != 0)),
        s[1] == 3 ==> (input_inject::parse_input(s) matches Some((InputMsg::Wheel { dx, dy }, n))
            && n == 6 && dx == place16(s, 2) && dy == place16(s, 4)),
        s[1] == 4 ==> (input_inject::parse_input(s) matches Some((InputMsg::KeyDown { keysym }, n))
            && n == 6 && keysym == big32(s, 2)),
        s[1] == 5 ==> (input_inject::parse_input(s) matches Some((InputMsg::KeyUp { keysym }, n))
            && n == 6 && keysym == big32(s, 2)),
        s[1] == 0 || s[1] > 5 ==> input_inject::parse_input(s) is None,
{
}

/// An input that is cut short, or is none, is not taken.
pub proof fn short_input_is_not_taken(s: Seq<u8>)
    ensures
        s.len() < 2 ==> input_inject::parse_input(s) is None,
        s.len() >= 2 && s[0] != 5 ==> input_inject::parse_input(s) is None,
        s.len() >= 2 && s.len() < 6 ==> input_inject::parse_input(s) is None,
        s.len() >= 2 && s.len() < 8 && s[1] == 2 ==> input_inject::parse_input(s) is None,
        s.len() >= 6 && s[0] == 5 && (s[1] == 1 || 3 <= s[1] <= 5) ==> input_inject::parse_input(
            s,
        ) is Some,
{
}

/// What the first byte of a datagram tells.
pub proof fn the_first_byte_tells_the_kind(b: u8)
    ensures
        b == 1 <==> protocol::kind_of_first_byte(b) == protocol::InboundKind::Hello,
        b == 2 <==> protocol::kind_of_first_byte(b) == protocol::InboundKind::AckBatchV1,
        b == 3 <==> protocol::kind_of_first_byte(b) == protocol::InboundKind::AckBatch,
        b == 4 <==> protocol::kind_of_first_byte(b) == protocol::InboundKind::TileParity,
        b == 5 <==> protocol::kind_of_first_byte(b) == protocol::InboundKind::TileNack,
        b == 0 || 6 <= b < 16 <==> protocol::kind_of_first_byte(b)
            == protocol::InboundKind::Unknown,
        16 <= b < 128 <==> protocol::kind_of_first_byte(b)
            == protocol::InboundKind::FrameFragment,
        b >= 128 <==> protocol::kind_of_first_byte(b) == protocol::InboundKind::TileFragment,
{
}

/// The parity of a tile's own fragments: numbered past the last fragment, with
/// the tile named and the parity behind.
pub proof fn tile_parity_datagram_layout(
    frame_seq: u32,
    x: u8,
    y: u8,
    codec: Codec,
    timestamp_us: u32,
    total: u16,
    parity: Seq<u8>,
    i: int,
)
    requires
        0 <= i,
        total + i <= 0xFFFF,
    ensures
        ({
            let s = protocol::tile_parity_datagram(
                frame_seq,
                x,
                y,
                codec,
                timestamp_us,
                total,
                parity,
                i,
            );
            &&& s.len() == 24 + parity.len()
            &&& big32(s, 0) == frame_seq
            &&& big16(s, 4) == total + i
            &&& big16(s, 6) == total
            &&& big32(s, 12) == timestamp_us
            &&& s[16] == x && s[17] == y
            &&& s[18] / 2 == codec.code()
            &&& s.skip(24) == parity
        }),
{
    let dh = DatagramHeader {
        frame_seq,
        frag_idx: protocol::low16(total + i),
        frag_total: total,
        wire_seq: protocol::UNSTAMPED_WIRE_SEQ,
        timestamp_us,
    };
    let th = TileHeader {
        tile_x: x,
        tile_y: y,
        codec,
        lz4: false,
        generation: 0,
        pass: 0,
        payload_len: 0,
    };
    datagram_header_layout(dh);
    tile_header_layout(th);
    let d = dh.bytes();
    let t = th.bytes();
    let s = protocol::tile_parity_datagram(frame_seq, x, y, codec, timestamp_us, total, parity, i);
    assert(s == d + t + parity);
    assert forall|k: int| 0 <= k < 16 implies s[k] == d[k] by {}
    assert forall|k: int| 16 <= k < 24 implies s[k] == t[k - 16] by {}
    assert(s.skip(24) =~= parity);
}

/// Every payload has a fragment, also an empty one, and no more than it needs.
pub proof fn a_payload_has_its_fragments(len: nat, max: nat)
    requires
        max > 0,
    ensures
        protocol::chunk_count(len, max) >= 1,
        len <= max ==> protocol::chunk_count(len, max) == 1,
        len <= protocol::chunk_count(len, max) * max,
        len > 0 ==> (protocol::chunk_count(len, max) - 1) * max < len,
{
    let n = protocol::chunk_count(len, max);
    if len > 0 {
        let q = (len - 1) / max as int;
        assert(q * max <= len - 1 < q * max + max && q >= 0) by (nonlinear_arith)
            requires
                len > 0,
                max > 0,
                q == (len - 1) / max as int,
        ;
        assert((q + 1) * max == q * max + max) by (nonlinear_arith);
        if len <= max {
            assert(q == 0) by (nonlinear_arith)
                requires
                    q * max <= len - 1,
                    len <= max,
                    q >= 0,
                    max > 0,
            ;
        }
    } else {
        assert(1 * max >= 0);
    }
}

/// A tile datagram is read in three parts: sixteen bytes, eight, and the rest.
pub proof fn tile_datagrams_have_three_parts(s: Seq<u8>)
    ensures
        s.len() < 16 ==> protocol::tile_datagram_parts(s) == Err::<
            (DatagramHeader, TileHeader, Seq<u8>),
            protocol::ProtocolError,
        >(protocol::ProtocolError::TooShort { expected: 16, got: s.len() as usize }),
        16 <= s.len() < 24 ==> protocol::tile_datagram_parts(s) == Err::<
            (DatagramHeader, TileHeader, Seq<u8>),
            protocol::ProtocolError,
        >(protocol::ProtocolError::TooShort { expected: 8, got: (s.len() - 16) as usize }),
        s.len() >= 24 && s[18] / 2 > 5 ==> protocol::tile_datagram_parts(s) == Err::<
            (DatagramHeader, TileHeader, Seq<u8>),
            protocol::ProtocolError,
        >(protocol::ProtocolError::UnknownCodec(s[18] / 2)),
        s.len() >= 24 && s[18] / 2 <= 5 ==> (protocol::tile_datagram_parts(s) matches Ok((dh, th, p))
            && dh.frame_seq == big32(s, 0) && dh.frag_idx == big16(s, 4) && dh.frag_total == big16(
            s,
            6,
        ) && dh.wire_seq == big32(s, 8) && dh.timestamp_us == big32(s, 12) && th.tile_x == s[16]
            && th.tile_y == s[17] && th.codec.code() == s[18] / 2 && th.generation == s[19] / 16
            && th.pass == s[19] % 16 && p == s.skip(24)),
{
    if s.len() >= 24 {
        let t = s.skip(16);
        assert(t[0] == s[16] && t[1] == s[17] && t[2] == s[18] && t[3] == s[19]);
        tile_header_is_read_there(t);
        datagram_header_is_read_there(s);
    }
}

} // verus!
