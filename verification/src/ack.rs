//! Batched acknowledgements, one entry per tile-pass.
//!
//! ```text
//! [0]      message type
//! [1]      count: 1..=72
//! [2..]    count entries of 9 bytes:
//!            [0..4] frame_seq LE | [4] tile_x | [5] tile_y | [6] pass_idx
//!            [7..9] arrival_time_ms_lo16 LE
//! ```
//!
//! A batch holds up to 64 fresh entries and repeats up to 8 of the previous
//! batch, so that losing one batch loses no acknowledgement.
use crate::wire;
use crate::wire::{push_le16, push_le32, read_le16, read_le32};
use vstd::prelude::*;

verus! {

broadcast use vstd::slice::group_slice_axioms;

pub const ACK_BATCH_MSG_TYPE: u8 = 0x04;

/// Most fresh entries the client packs into one batch.
pub const MAX_FRESH_ENTRIES_PER_BATCH: usize = 64;

/// Entries of the previous batch that the client repeats.
pub const ACK_OVERLAP_COUNT: usize = 8;

/// Most entries accepted in one batch: fresh and repeated ones.
pub const MAX_ACK_ENTRIES_PER_BATCH: usize = MAX_FRESH_ENTRIES_PER_BATCH + ACK_OVERLAP_COUNT;

pub const ACK_ENTRY_SIZE: usize = 9;

/// Why a byte string is not an acknowledgement batch.
#[derive(Debug, Clone, Copy, PartialEq, Eq, Structural)]
pub enum AckDecodeError {
    /// It has only so many bytes.
    TooShort(usize),
    /// Its first byte is another message type.
    WrongMsgType(u8),
    /// Its entry count is zero or above the maximum.
    InvalidCount(u8),
}

/// One acknowledged tile-pass.
#[derive(Debug, Clone, Copy, PartialEq, Eq, Structural)]
pub struct AckEntry {
    pub frame_seq: u32,
    pub tile_x: u8,
    pub tile_y: u8,
    pub pass_idx: u8,
    /// Low sixteen bits of the client's receive time in milliseconds.
    pub arrival_time_ms_lo16: u16,
}

impl AckEntry {
    /// The entry's nine bytes.
    pub open spec fn bytes(self) -> Seq<u8> {
        wire::le32_bytes(self.frame_seq) + seq![self.tile_x, self.tile_y, self.pass_idx]
            + wire::le16_bytes(self.arrival_time_ms_lo16)
    }

    /// The entry at offset `off` of `s`.
    pub open spec fn parse(s: Seq<u8>, off: int) -> AckEntry {
        AckEntry {
            frame_seq: wire::le32_at(s, off),
            tile_x: s[off + 4],
            tile_y: s[off + 5],
            pass_idx: s[off + 6],
            arrival_time_ms_lo16: wire::le16_at(s, off + 7),
        }
    }
}

/// The bytes of `entries`, one after the other.
pub open spec fn entries_bytes(entries: Seq<AckEntry>) -> Seq<u8>
    decreases entries.len(),
{
    if entries.len() == 0 {
        Seq::empty()
    } else {
        entries_bytes(entries.drop_last()) + entries.last().bytes()
    }
}

/// The bytes of a batch: message type, count, entries.
pub open spec fn batch_bytes(entries: Seq<AckEntry>) -> Seq<u8> {
    seq![ACK_BATCH_MSG_TYPE, (entries.len() % 256) as u8] + entries_bytes(entries)
}

/// What a byte string is as an acknowledgement batch.
pub open spec fn batch_of(s: Seq<u8>) -> Result<Seq<AckEntry>, AckDecodeError> {
    if s.len() < 2 {
        Err(AckDecodeError::TooShort(s.len() as usize))
    } else if s[0] != ACK_BATCH_MSG_TYPE {
        Err(AckDecodeError::WrongMsgType(s[0]))
    } else if s[1] == 0 || s[1] > MAX_ACK_ENTRIES_PER_BATCH {
        Err(AckDecodeError::InvalidCount(s[1]))
    } else if s.len() < 2 + s[1] * ACK_ENTRY_SIZE {
        Err(AckDecodeError::TooShort(s.len() as usize))
    } else {
        Ok(Seq::new(s[1] as nat, |i: int| AckEntry::parse(s, 2 + i * ACK_ENTRY_SIZE)))
    }
}

/// A batch of acknowledgements.
#[derive(Debug, Clone, PartialEq, Eq)]
pub struct AckBatch {
    pub entries: Vec<AckEntry>,
}

impl AckBatch {
    /// Encodes all entries; the count byte holds their number modulo 256.
    pub fn encode(&self) -> (out: Vec<u8>)
        ensures
            out@ == batch_bytes(self.entries@),
    {
        let n: usize = self.entries.len();
        let mut out: Vec<u8> = Vec::new();
        out.push(ACK_BATCH_MSG_TYPE);
        out.push((n % 256) as u8);
        let ghost head = out@;
        let mut i: usize = 0;
        assert(entries_bytes(self.entries@.take(0)) =~= Seq::empty());
        while i < n
            invariant
                i <= n,
                n == self.entries@.len(),
                out@ == head + entries_bytes(self.entries@.take(i as int)),
            decreases n - i,
        {
            let e = self.entries[i];
            push_le32(&mut out, e.frame_seq);
            out.push(e.tile_x);
            out.push(e.tile_y);
            out.push(e.pass_idx);
            push_le16(&mut out, e.arrival_time_ms_lo16);
            i = i + 1;
            assert(self.entries@.take(i as int).drop_last() =~= self.entries@.take(i - 1));
            assert(self.entries@.take(i as int).last() == e);
            assert(out@ =~= head + entries_bytes(self.entries@.take(i as int)));
        }
        assert(self.entries@.take(n as int) =~= self.entries@);
        assert(out@ =~= batch_bytes(self.entries@));
        out
    }

    /// Decodes a batch; bytes after the last entry are ignored.
    pub fn decode(data: &[u8]) -> (r: Result<Self, AckDecodeError>)
        ensures
            match (r, batch_of(data@)) {
                (Ok(got), Ok(want)) => got.entries@ == want,
                (Err(got), Err(want)) => got == want,
                _ => false,
            },
    {
        if data.len() < 2 {
            return Err(AckDecodeError::TooShort(data.len()));
        }
        if data[0] != ACK_BATCH_MSG_TYPE {
            return Err(AckDecodeError::WrongMsgType(data[0]));
        }
        let count: u8 = data[1];
        if count == 0 || count as usize > MAX_ACK_ENTRIES_PER_BATCH {
            return Err(AckDecodeError::InvalidCount(count));
        }
        let n: usize = count as usize;
        if data.len() < 2 + n * ACK_ENTRY_SIZE {
            return Err(AckDecodeError::TooShort(data.len()));
        }
        let mut entries: Vec<AckEntry> = Vec::new();
        let mut i: usize = 0;
        while i < n
            invariant
                i <= n <= MAX_ACK_ENTRIES_PER_BATCH,
                data@.len() >= 2 + n * ACK_ENTRY_SIZE,
                entries@ == Seq::new(
                    i as nat,
                    |j: int| AckEntry::parse(data@, 2 + j * ACK_ENTRY_SIZE),
                ),
            decreases n - i,
        {
            let off: usize = 2 + i * ACK_ENTRY_SIZE;
            entries.push(
                AckEntry {
                    frame_seq: read_le32(data, off),
                    tile_x: data[off + 4],
                    tile_y: data[off + 5],
                    pass_idx: data[off + 6],
                    arrival_time_ms_lo16: read_le16(data, off + 7),
                },
            );
            i = i + 1;
            assert(entries@ =~= Seq::new(
                i as nat,
                |j: int| AckEntry::parse(data@, 2 + j * ACK_ENTRY_SIZE),
            ));
        }
        Ok(AckBatch { entries })
    }
}

/// Entry `i` stands at byte `9 * i` of the encoded entries.
proof fn entries_at(entries: Seq<AckEntry>, i: int)
    requires
        0 <= i < entries.len(),
    ensures
        entries_bytes(entries).len() == entries.len() * ACK_ENTRY_SIZE,
        entries_bytes(entries).subrange(i * 9, i * 9 + 9) == entries[i].bytes(),
    decreases entries.len(),
{
    let front = entries.drop_last();
    let all = entries_bytes(entries);
    if front.len() == 0 {
        assert(entries_bytes(front) =~= Seq::empty());
        assert(all.subrange(0, 9) =~= entries[0].bytes());
    } else if i < front.len() {
        entries_at(front, i);
        assert(all.subrange(i * 9, i * 9 + 9) =~= entries_bytes(front).subrange(
            i * 9,
            i * 9 + 9,
        ));
    } else {
        entries_at(front, 0);
        assert(all.subrange(i * 9, i * 9 + 9) =~= entries[i].bytes());
    }
}

/// Decoding an encoded batch of 1 to 72 entries gives its entries back.
pub proof fn ack_batch_round_trip(entries: Seq<AckEntry>)
    requires
        1 <= entries.len() <= MAX_ACK_ENTRIES_PER_BATCH,
    ensures
        batch_of(batch_bytes(entries)) == Ok::<Seq<AckEntry>, AckDecodeError>(entries),
{
    let s = batch_bytes(entries);
    entries_at(entries, 0);
    assert(s.len() == 2 + entries.len() * ACK_ENTRY_SIZE);
    assert forall|i: int| 0 <= i < entries.len() implies #[trigger] entries[i]
        == AckEntry::parse(s, 2 + i * ACK_ENTRY_SIZE) by {
        entries_at(entries, i);
        let off = 2 + i * 9;
        let e = entries[i];
        let t = s.subrange(off, off + 9);
        assert(t =~= entries_bytes(entries).subrange(i * 9, i * 9 + 9));
        assert(s.subrange(off, off + 4) =~= t.subrange(0, 4));
        assert(t.subrange(0, 4) =~= wire::le32_bytes(e.frame_seq));
        assert(s.subrange(off + 7, off + 9) =~= t.subrange(7, 9));
        assert(t.subrange(7, 9) =~= wire::le16_bytes(e.arrival_time_ms_lo16));
        wire::le32_within(s, off, e.frame_seq);
        wire::le16_within(s, off + 7, e.arrival_time_ms_lo16);
        assert(t[4] == s[off + 4] && t[5] == s[off + 5] && t[6] == s[off + 6]);
    }
    assert(entries =~= Seq::new(
        s[1] as nat,
        |i: int| AckEntry::parse(s, 2 + i * ACK_ENTRY_SIZE),
    ));
}

} // verus!
