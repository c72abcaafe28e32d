//! Fixed-width integers on the wire, in both byte orders.
//!
//! Every message of this crate is laid out from these primitives, so each one
//! has a byte-level model and a lemma saying that reading undoes writing.
use vstd::prelude::*;

verus! {

/// The two bytes of `x`, most significant first.
pub open spec fn be16_bytes(x: u16) -> Seq<u8> {
    seq![(x / 256) as u8, (x % 256) as u8]
}

/// The four bytes of `x`, most significant first.
pub open spec fn be32_bytes(x: u32) -> Seq<u8> {
    seq![
        (x / 0x100_0000) as u8,
        (x / 0x1_0000 % 256) as u8,
        (x / 256 % 256) as u8,
        (x % 256) as u8,
    ]
}

/// The two bytes of `x`, least significant first.
pub open spec fn le16_bytes(x: u16) -> Seq<u8> {
    seq![(x % 256) as u8, (x / 256) as u8]
}

/// The four bytes of `x`, least significant first.
pub open spec fn le32_bytes(x: u32) -> Seq<u8> {
    seq![
        (x % 256) as u8,
        (x / 256 % 256) as u8,
        (x / 0x1_0000 % 256) as u8,
        (x / 0x100_0000) as u8,
    ]
}

/// The big-endian 16-bit number at offset `i` of `s`.
pub open spec fn be16_at(s: Seq<u8>, i: int) -> u16 {
    (s[i] * 256 + s[i + 1]) as u16
}

/// The big-endian 32-bit number at offset `i` of `s`.
pub open spec fn be32_at(s: Seq<u8>, i: int) -> u32 {
    (s[i] * 0x100_0000 + s[i + 1] * 0x1_0000 + s[i + 2] * 256 + s[i + 3]) as u32
}

/// The little-endian 16-bit number at offset `i` of `s`.
pub open spec fn le16_at(s: Seq<u8>, i: int) -> u16 {
    (s[i] + s[i + 1] * 256) as u16
}

/// The little-endian 32-bit number at offset `i` of `s`.
pub open spec fn le32_at(s: Seq<u8>, i: int) -> u32 {
    (s[i] + s[i + 1] * 256 + s[i + 2] * 0x1_0000 + s[i + 3] * 0x100_0000) as u32
}

/// Two's-complement reading of a 16-bit word.
pub open spec fn signed16(x: u16) -> i16 {
    if x < 0x8000 {
        x as i16
    } else {
        (x - 0x1_0000) as i16
    }
}

/// Appends `x` in big-endian order.
pub fn push_be16(buf: &mut Vec<u8>, x: u16)
    ensures
        final(buf)@ == old(buf)@ + be16_bytes(x),
{
    buf.push((x / 256) as u8);
    buf.push((x % 256) as u8);
    assert(buf@ =~= old(buf)@ + be16_bytes(x));
}

/// Appends `x` in big-endian order.
pub fn push_be32(buf: &mut Vec<u8>, x: u32)
    ensures
        final(buf)@ == old(buf)@ + be32_bytes(x),
{
    buf.push((x / 0x100_0000) as u8);
    buf.push((x / 0x1_0000 % 256) as u8);
    buf.push((x / 256 % 256) as u8);
    buf.push((x % 256) as u8);
    assert(buf@ =~= old(buf)@ + be32_bytes(x));
}

/// Appends `x` in little-endian order.
pub fn push_le16(buf: &mut Vec<u8>, x: u16)
    ensures
        final(buf)@ == old(buf)@ + le16_bytes(x),
{
    buf.push((x % 256) as u8);
    buf.push((x / 256) as u8);
    assert(buf@ =~= old(buf)@ + le16_bytes(x));
}

/// Appends `x` in little-endian order.
pub fn push_le32(buf: &mut Vec<u8>, x: u32)
    ensures
        final(buf)@ == old(buf)@ + le32_bytes(x),
{
    buf.push((x % 256) as u8);
    buf.push((x / 256 % 256) as u8);
    buf.push((x / 0x1_0000 % 256) as u8);
    buf.push((x / 0x100_0000) as u8);
    assert(buf@ =~= old(buf)@ + le32_bytes(x));
}

/// Appends every byte of `data`.
pub fn push_bytes(buf: &mut Vec<u8>, data: &[u8])
    ensures
        final(buf)@ == old(buf)@ + data@,
{
    let n: usize = data.len();
    let mut i: usize = 0;
    while i < n
        invariant
            i <= n,
            n == data@.len(),
            buf@ == old(buf)@ + data@.subrange(0, i as int),
        decreases n - i,
    {
        buf.push(data[i]);
        i = i + 1;
        assert(data@.subrange(0, i as int) =~= data@.subrange(0, i - 1).push(data@[i - 1]));
    }
    assert(data@.subrange(0, n as int) =~= data@);
}

/// A copy of `data[from..to]`.
pub fn copy_range(data: &[u8], from: usize, to: usize) -> (out: Vec<u8>)
    requires
        from <= to <= data@.len(),
    ensures
        out@ == data@.subrange(from as int, to as int),
{
    let mut out: Vec<u8> = Vec::new();
    let mut i: usize = from;
    while i < to
        invariant
            from <= i <= to <= data@.len(),
            out@ == data@.subrange(from as int, i as int),
        decreases to - i,
    {
        out.push(data[i]);
        i = i + 1;
        assert(data@.subrange(from as int, i as int) =~= data@.subrange(
            from as int,
            i - 1,
        ).push(data@[i - 1]));
    }
    out
}

/// Reads the big-endian 16-bit number at `i`.
pub fn read_be16(s: &[u8], i: usize) -> (x: u16)
    requires
        i + 2 <= s@.len(),
    ensures
        x == be16_at(s@, i as int),
{
    s[i] as u16 * 256 + s[i + 1] as u16
}

/// Reads the big-endian 32-bit number at `i`.
pub fn read_be32(s: &[u8], i: usize) -> (x: u32)
    requires
        i + 4 <= s@.len(),
    ensures
        x == be32_at(s@, i as int),
{
    s[i] as u32 * 0x100_0000 + s[i + 1] as u32 * 0x1_0000 + s[i + 2] as u32 * 256 + s[i + 3] as u32
}

/// Reads the little-endian 16-bit number at `i`.
pub fn read_le16(s: &[u8], i: usize) -> (x: u16)
    requires
        i + 2 <= s@.len(),
    ensures
        x == le16_at(s@, i as int),
{
    s[i] as u16 + s[i + 1] as u16 * 256
}

/// Reads the little-endian 32-bit number at `i`.
pub fn read_le32(s: &[u8], i: usize) -> (x: u32)
    requires
        i + 4 <= s@.len(),
    ensures
        x == le32_at(s@, i as int),
{
    s[i] as u32 + s[i + 1] as u32 * 256 + s[i + 2] as u32 * 0x1_0000 + s[i + 3] as u32 * 0x100_0000
}

/// Reads the big-endian two's-complement 16-bit number at `i`.
pub fn read_be_i16(s: &[u8], i: usize) -> (x: i16)
    requires
        i + 2 <= s@.len(),
    ensures
        x == signed16(be16_at(s@, i as int)),
{
    let u: u16 = read_be16(s, i);
    if u < 0x8000 {
        u as i16
    } else {
        (u as i32 - 0x1_0000) as i16
    }
}

/// Reading a big-endian 16-bit number gives back what was written.
pub proof fn be16_round_trip(x: u16)
    ensures
        be16_at(be16_bytes(x), 0) == x,
{
}

/// Reading a big-endian 32-bit number gives back what was written.
pub proof fn be32_round_trip(x: u32)
    ensures
        be32_at(be32_bytes(x), 0) == x,
{
}

/// Reading a little-endian 16-bit number gives back what was written.
pub proof fn le16_round_trip(x: u16)
    ensures
        le16_at(le16_bytes(x), 0) == x,
{
}

/// Reading a little-endian 32-bit number gives back what was written.
pub proof fn le32_round_trip(x: u32)
    ensures
        le32_at(le32_bytes(x), 0) == x,
{
}

/// A 16-bit number is read wherever its big-endian bytes stand.
pub proof fn be16_within(s: Seq<u8>, i: int, x: u16)
    requires
        0 <= i,
        i + 2 <= s.len(),
        s.subrange(i, i + 2) == be16_bytes(x),
    ensures
        be16_at(s, i) == x,
{
    let t = s.subrange(i, i + 2);
    assert(t[0] == s[i] && t[1] == s[i + 1]);
}

/// A 32-bit number is read wherever its big-endian bytes stand.
pub proof fn be32_within(s: Seq<u8>, i: int, x: u32)
    requires
        0 <= i,
        i + 4 <= s.len(),
        s.subrange(i, i + 4) == be32_bytes(x),
    ensures
        be32_at(s, i) == x,
{
    let t = s.subrange(i, i + 4);
    assert(t[0] == s[i] && t[1] == s[i + 1] && t[2] == s[i + 2] && t[3] == s[i + 3]);
}

/// A 16-bit number is read wherever its little-endian bytes stand.
pub proof fn le16_within(s: Seq<u8>, i: int, x: u16)
    requires
        0 <= i,
        i + 2 <= s.len(),
        s.subrange(i, i + 2) == le16_bytes(x),
    ensures
        le16_at(s, i) == x,
{
    let t = s.subrange(i, i + 2);
    assert(t[0] == s[i] && t[1] == s[i + 1]);
}

/// A 32-bit number is read wherever its little-endian bytes stand.
pub proof fn le32_within(s: Seq<u8>, i: int, x: u32)
    requires
        0 <= i,
        i + 4 <= s.len(),
        s.subrange(i, i + 4) == le32_bytes(x),
    ensures
        le32_at(s, i) == x,
{
    let t = s.subrange(i, i + 4);
    assert(t[0] == s[i] && t[1] == s[i + 1] && t[2] == s[i + 2] && t[3] == s[i + 3]);
}

} // verus!
