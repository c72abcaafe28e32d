//! Rules of the QUIC endpoint: the certificate's fingerprint, the size of the
//! datagram send buffer, and which timers are due.
use crate::io_bridge::config;
use crate::io_bridge::config::parse_number;
use crate::time::Instant;
use sha2::{Digest, Sha256};
use vstd::prelude::*;

verus! {

broadcast use vstd::slice::group_slice_axioms;

/// Datagram bytes held before a send is refused, unless set otherwise.
pub const DEFAULT_SEND_BUFFER_BYTES: usize = 16_777_216;

/// Datagram bytes held until the application reads them.
pub const RECEIVE_BUFFER_BYTES: usize = 65_536;

/// Days that a certificate is valid. Browsers take a pinned one only where it
/// is valid for two weeks at most.
pub const CERT_VALIDITY_DAYS: i64 = 13;

/// Bytes in a fingerprint.
pub const FINGERPRINT_LEN: usize = 32;

/// The SHA-256 of these bytes.
pub uninterp spec fn sha256_of(data: Seq<u8>) -> Seq<u8>;

/// The lower-case hexadecimal digit for `n`.
pub open spec fn hex_digit(n: int) -> char {
    if n == 0 {
        '0'
    } else if n == 1 {
        '1'
    } else if n == 2 {
        '2'
    } else if n == 3 {
        '3'
    } else if n == 4 {
        '4'
    } else if n == 5 {
        '5'
    } else if n == 6 {
        '6'
    } else if n == 7 {
        '7'
    } else if n == 8 {
        '8'
    } else if n == 9 {
        '9'
    } else if n == 10 {
        'a'
    } else if n == 11 {
        'b'
    } else if n == 12 {
        'c'
    } else if n == 13 {
        'd'
    } else if n == 14 {
        'e'
    } else {
        'f'
    }
}

/// Two digits for each byte, the high one first.
pub open spec fn hex_text(data: Seq<u8>) -> Seq<char> {
    Seq::new(
        2 * data.len(),
        |i: int|
            if i % 2 == 0 {
                hex_digit(data[i / 2] as int / 16)
            } else {
                hex_digit(data[i / 2] as int % 16)
            },
    )
}

/// Calls `Sha256::digest`.
///
/// Claimed: the digest depends on the bytes alone and has 32 bytes.
#[verifier::external_body]
fn sha256(data: &[u8]) -> (digest: Vec<u8>)
    ensures
        digest@ == sha256_of(data@),
        digest@.len() == FINGERPRINT_LEN,
{
    Sha256::digest(data).to_vec()
}

/// Calls `hex::encode`.
///
/// Claimed: it writes exactly [`hex_text`].
#[verifier::external_body]
fn hex_encode(data: &[u8]) -> (text: String)
    ensures
        text@ == hex_text(data@),
{
    hex::encode(data)
}

/// The fingerprint by which a browser pins the certificate.
#[derive(Debug, Clone, PartialEq, Eq)]
pub struct CertInfo {
    pub sha256_hex: String,
}

impl CertInfo {
    /// The fingerprint of a certificate in DER form.
    pub fn of_certificate(cert_der: &[u8]) -> (info: CertInfo)
        ensures
            info.sha256_hex@ == hex_text(sha256_of(cert_der@)),
            info.sha256_hex@.len() == 2 * FINGERPRINT_LEN,
    {
        let digest = sha256(cert_der);
        CertInfo { sha256_hex: hex_encode(digest.as_slice()) }
    }
}

/// The size of the send buffer that a setting asks for.
pub open spec fn send_buffer_for(setting: Option<Seq<char>>) -> usize {
    match setting {
        Some(text) => match config::number_in(text, usize::MAX as u64) {
            Some(n) => if n > 0 {
                n as usize
            } else {
                DEFAULT_SEND_BUFFER_BYTES
            },
            None => DEFAULT_SEND_BUFFER_BYTES,
        },
        None => DEFAULT_SEND_BUFFER_BYTES,
    }
}

/// Datagram bytes to hold before a send is refused: what the setting says,
/// where it is a positive number.
pub fn datagram_send_buffer_bytes(setting: Option<&str>) -> (bytes: usize)
    ensures
        bytes == send_buffer_for(
            match setting {
                Some(text) => Some(text@),
                None => None,
            },
        ),
        bytes > 0,
{
    match setting {
        Some(text) => match parse_number(text, usize::MAX as u64) {
            Some(n) => if n > 0 {
                n as usize
            } else {
                DEFAULT_SEND_BUFFER_BYTES
            },
            None => DEFAULT_SEND_BUFFER_BYTES,
        },
        None => DEFAULT_SEND_BUFFER_BYTES,
    }
}

/// The earliest of the deadlines, one or none for each connection.
pub fn next_timeout(deadlines: &[Option<Instant>]) -> (first: Option<Instant>)
    ensures
        first is None <==> forall|i: int| 0 <= i < deadlines@.len() ==> deadlines@[i] is None,
        first is Some ==> deadlines@.contains(first),
        first is Some ==> forall|i: int|
            0 <= i < deadlines@.len() && deadlines@[i] is Some ==> first->0.nanos
                <= deadlines@[i]->0.nanos,
{
    let mut first: Option<Instant> = None;
    let mut i: usize = 0;
    while i < deadlines.len()
        invariant
            i <= deadlines@.len(),
            first is None <==> forall|j: int| 0 <= j < i ==> deadlines@[j] is None,
            first is Some ==> exists|j: int| 0 <= j < i && deadlines@[j] == first,
            first is Some ==> forall|j: int|
                0 <= j < i && deadlines@[j] is Some ==> first->0.nanos <= deadlines@[j]->0.nanos,
        decreases deadlines@.len() - i,
    {
        if let Some(t) = deadlines[i] {
            let sooner = match first {
                Some(best) => t.nanos < best.nanos,
                None => true,
            };
            if sooner {
                first = Some(t);
                assert(deadlines@[i as int] == first);
            }
        }
        i = i + 1;
    }
    first
}

/// Whether a connection's timer has to fire.
pub fn timer_is_due(deadline: Option<Instant>, now: Instant) -> (due: bool)
    ensures
        due == (deadline is Some && deadline->0.nanos <= now.nanos),
{
    match deadline {
        Some(t) => t.nanos <= now.nanos,
        None => false,
    }
}

/// Whether a character is a lower-case hexadecimal digit.
pub open spec fn is_hex_digit(c: char) -> bool {
    exists|n: int| 0 <= n < 16 && c == #[trigger] hex_digit(n)
}

/// A fingerprint reads as lower-case hexadecimal digits, two for each byte.
pub proof fn fingerprint_is_hex(data: Seq<u8>)
    ensures
        hex_text(data).len() == 2 * data.len(),
        forall|i: int| 0 <= i < hex_text(data).len() ==> is_hex_digit(#[trigger] hex_text(data)[i]),
{
    assert forall|i: int| 0 <= i < hex_text(data).len() implies is_hex_digit(
        #[trigger] hex_text(data)[i],
    ) by {
        let b = data[i / 2] as int;
        assert(is_hex_digit(hex_digit(b / 16)));
        assert(is_hex_digit(hex_digit(b % 16)));
    }
}

/// Different digits are different characters.
proof fn digits_differ(m: int, n: int)
    requires
        0 <= m < 16,
        0 <= n < 16,
        hex_digit(m) == hex_digit(n),
    ensures
        m == n,
{
}

/// Different bytes read differently.
pub proof fn hex_is_unambiguous(a: Seq<u8>, b: Seq<u8>)
    requires
        hex_text(a) == hex_text(b),
    ensures
        a == b,
{
    assert(hex_text(a).len() == 2 * a.len());
    assert(hex_text(b).len() == 2 * b.len());
    assert forall|i: int| 0 <= i < a.len() implies a[i] == b[i] by {
        assert(hex_text(a)[2 * i] == hex_digit(a[i] as int / 16));
        assert(hex_text(b)[2 * i] == hex_digit(b[i] as int / 16));
        assert(hex_text(a)[2 * i + 1] == hex_digit(a[i] as int % 16));
        assert(hex_text(b)[2 * i + 1] == hex_digit(b[i] as int % 16));
        digits_differ(a[i] as int / 16, b[i] as int / 16);
        digits_differ(a[i] as int % 16, b[i] as int % 16);
    }
    assert(a =~= b);
}

/// The send buffer is as large as the setting says, and 16 MiB without a
/// setting or with one that is no positive number.
pub proof fn the_send_buffer_follows_its_setting(text: Seq<char>)
    ensures
        send_buffer_for(None) == 16 * 1024 * 1024,
        config::number_in(text, usize::MAX as u64) is None ==> send_buffer_for(Some(text)) == 16
            * 1024 * 1024,
        config::number_in(text, usize::MAX as u64) == Some(0u64) ==> send_buffer_for(Some(text))
            == 16 * 1024 * 1024,
        config::number_in(text, usize::MAX as u64) matches Some(n) ==> (0 < n <= usize::MAX
            ==> send_buffer_for(Some(text)) == n),
{
}

} // verus!
