//! Variable-length integers: the top two bits of the first byte say how many
//! bytes follow, and the remaining bits hold the number, most significant byte
//! first.
use vstd::prelude::*;
use web_transport_proto::VarInt;

verus! {

broadcast use vstd::slice::group_slice_axioms;

/// One above the largest number that can be written.
pub const VARINT_LIMIT: u64 = 0x4000_0000_0000_0000;

/// The low `n` bytes of `x`, most significant first.
pub open spec fn be_bytes(x: nat, n: nat) -> Seq<u8>
    decreases n,
{
    if n == 0 {
        Seq::empty()
    } else {
        be_bytes(x / 256, (n - 1) as nat).push((x % 256) as u8)
    }
}

/// The number that `s` holds, most significant byte first.
pub open spec fn be_value(s: Seq<u8>) -> nat
    decreases s.len(),
{
    if s.len() == 0 {
        0
    } else {
        be_value(s.drop_last()) * 256 + s.last() as nat
    }
}

/// How many bytes `x` takes.
pub open spec fn varint_len(x: u64) -> nat {
    if x < 0x40 {
        1
    } else if x < 0x4000 {
        2
    } else if x < 0x4000_0000 {
        4
    } else {
        8
    }
}

/// The bytes that say `x`: its length tag above the number itself.
pub open spec fn varint_bytes(x: u64) -> Seq<u8> {
    if x < 0x40 {
        be_bytes(x as nat, 1)
    } else if x < 0x4000 {
        be_bytes(0x4000 + x as nat, 2)
    } else if x < 0x4000_0000 {
        be_bytes(0x8000_0000 + x as nat, 4)
    } else {
        be_bytes(0xC000_0000_0000_0000 + x as nat, 8)
    }
}

/// How many bytes a number takes that starts with `first`.
pub open spec fn tagged_len(first: u8) -> nat {
    if first < 0x40 {
        1
    } else if first < 0x80 {
        2
    } else if first < 0xC0 {
        4
    } else {
        8
    }
}

/// The weight of the length tag of a number of `n` bytes.
pub open spec fn tag_weight(n: nat) -> nat {
    if n == 1 {
        0
    } else if n == 2 {
        0x4000
    } else if n == 4 {
        0x8000_0000
    } else {
        0xC000_0000_0000_0000
    }
}

/// The number at the start of `s` and how many bytes it takes, if it is all
/// there.
pub open spec fn varint_at(s: Seq<u8>) -> Option<(nat, nat)> {
    if s.len() == 0 || s.len() < tagged_len(s[0]) {
        None
    } else {
        let n = tagged_len(s[0]);
        Some(((be_value(s.take(n as int)) - tag_weight(n)) as nat, n))
    }
}

/// Calls `VarInt::from_u64` and `VarInt::encode`.
///
/// Claimed: for a number below 2^62 they write exactly [`varint_bytes`].
#[verifier::external_body]
pub(crate) fn encode_varint(x: u64) -> (out: Vec<u8>)
    requires
        x < VARINT_LIMIT,
    ensures
        out@ == varint_bytes(x),
{
    let mut buf: Vec<u8> = Vec::new();
    if let Ok(v) = VarInt::from_u64(x) {
        v.encode(&mut buf);
    }
    buf
}

/// Calls `VarInt::decode`.
///
/// Claimed: it reads the number that [`varint_at`] finds and leaves the bytes
/// behind it, and fails exactly when the number is cut short.
#[verifier::external_body]
pub(crate) fn decode_varint(data: &[u8]) -> (r: Option<(u64, &[u8])>)
    ensures
        match (r, varint_at(data@)) {
            (Some((value, rest)), Some((x, n))) => value == x && rest@ == data@.skip(n as int),
            (None, None) => true,
            _ => false,
        },
{
    let mut rest: &[u8] = data;
    match VarInt::decode(&mut rest) {
        Ok(v) => Some((v.into_inner(), rest)),
        Err(_) => None,
    }
}

/// `x` takes exactly the bytes asked for, and they hold it.
proof fn be_bytes_hold(x: nat, n: nat)
    requires
        x < vstd::arithmetic::power::pow(256, n),
    ensures
        be_bytes(x, n).len() == n,
        be_value(be_bytes(x, n)) == x,
        n > 0 ==> be_bytes(x, n)[0] as int == x as int / vstd::arithmetic::power::pow(
            256,
            (n - 1) as nat,
        ),
    decreases n,
{
    reveal(vstd::arithmetic::power::pow);
    if n > 0 {
        let low = vstd::arithmetic::power::pow(256, (n - 1) as nat);
        vstd::arithmetic::power::lemma_pow_positive(256, (n - 1) as nat);
        assert(vstd::arithmetic::power::pow(256, n) == 256 * low);
        assert(x / 256 < low) by (nonlinear_arith)
            requires
                x < 256 * low,
        ;
        be_bytes_hold(x / 256, (n - 1) as nat);
        let s = be_bytes(x, n);
        assert(s.drop_last() =~= be_bytes(x / 256, (n - 1) as nat));
        if n == 1 {
            assert(low == 1);
            assert(s[0] == x % 256);
            assert(x as int / low == x) by (nonlinear_arith)
                requires
                    low == 1,
            ;
        } else {
            let lower = vstd::arithmetic::power::pow(256, (n - 2) as nat);
            vstd::arithmetic::power::lemma_pow_positive(256, (n - 2) as nat);
            assert(low == 256 * lower);
            vstd::arithmetic::div_mod::lemma_div_denominator(x as int, 256, lower);
            assert(s[0] == be_bytes(x / 256, (n - 1) as nat)[0]);
        }
    }
}

/// The powers of 256 that the lengths need.
proof fn powers()
    ensures
        vstd::arithmetic::power::pow(256, 0) == 1,
        vstd::arithmetic::power::pow(256, 1) == 0x100,
        vstd::arithmetic::power::pow(256, 2) == 0x1_0000,
        vstd::arithmetic::power::pow(256, 3) == 0x100_0000,
        vstd::arithmetic::power::pow(256, 4) == 0x1_0000_0000,
        vstd::arithmetic::power::pow(256, 7) == 0x100_0000_0000_0000,
        vstd::arithmetic::power::pow(256, 8) == 0x1_0000_0000_0000_0000,
{
    reveal_with_fuel(vstd::arithmetic::power::pow, 10);
}

/// Reading the bytes of a number gives the number and its length, whatever
/// follows.
pub proof fn varint_round_trip(x: u64, rest: Seq<u8>)
    requires
        x < VARINT_LIMIT,
    ensures
        varint_at(varint_bytes(x) + rest) == Some((x as nat, varint_len(x))),
        varint_bytes(x).len() == varint_len(x),
{
    let n = varint_len(x);
    let tagged = tag_weight(n) + x as nat;
    powers();
    be_bytes_hold(tagged, n);
    assert(varint_bytes(x) == be_bytes(tagged, n));
    assert(tagged_len(varint_bytes(x)[0]) == n);
    assert((varint_bytes(x) + rest).take(n as int) =~= varint_bytes(x));
}

} // verus!
