//! Settings of the bridge, as they are written in addresses and environment
//! variables.
use crate::ack::ACK_BATCH_MSG_TYPE;
use crate::protocol::Codec;
use vstd::prelude::*;
use vstd::string::StrSliceExecFns;

verus! {

broadcast use vstd::slice::group_slice_axioms;

/// The value of a decimal digit; nothing for another character.
pub open spec fn digit_of(c: char) -> Option<u8> {
    if c == '0' {
        Some(0)
    } else if c == '1' {
        Some(1)
    } else if c == '2' {
        Some(2)
    } else if c == '3' {
        Some(3)
    } else if c == '4' {
        Some(4)
    } else if c == '5' {
        Some(5)
    } else if c == '6' {
        Some(6)
    } else if c == '7' {
        Some(7)
    } else if c == '8' {
        Some(8)
    } else if c == '9' {
        Some(9)
    } else {
        None
    }
}

/// Computes `digit_of`.
fn digit(c: char) -> (d: Option<u8>)
    ensures
        d == digit_of(c),
{
    match c {
        '0' => Some(0),
        '1' => Some(1),
        '2' => Some(2),
        '3' => Some(3),
        '4' => Some(4),
        '5' => Some(5),
        '6' => Some(6),
        '7' => Some(7),
        '8' => Some(8),
        '9' => Some(9),
        _ => None,
    }
}

pub open spec fn is_digit(c: char) -> bool {
    digit_of(c) is Some
}

pub open spec fn all_digits(s: Seq<char>) -> bool {
    forall|i: int| 0 <= i < s.len() ==> is_digit(#[trigger] s[i])
}

/// The number that decimal digits stand for.
pub open spec fn digits_value(s: Seq<char>) -> int
    decreases s.len(),
{
    if s.len() == 0 {
        0
    } else {
        10 * digits_value(s.drop_last()) + digit_of(s.last())->0
    }
}

/// Without a leading plus sign.
pub open spec fn unsigned_part(s: Seq<char>) -> Seq<char> {
    if s.len() > 0 && s[0] == '+' {
        s.skip(1)
    } else {
        s
    }
}

/// The decimal number that a text is: one digit or more, after an optional
/// plus sign, and at most `max`.
pub open spec fn number_in(s: Seq<char>, max: u64) -> Option<u64> {
    let d = unsigned_part(s);
    if d.len() > 0 && all_digits(d) && digits_value(d) <= max {
        Some(digits_value(d) as u64)
    } else {
        None
    }
}

/// The value of a prefix is no larger, and none is negative.
proof fn prefix_value(s: Seq<char>, i: int)
    requires
        0 <= i <= s.len(),
        all_digits(s),
    ensures
        0 <= digits_value(s.take(i)) <= digits_value(s),
    decreases s.len(),
{
    if i == s.len() {
        assert(s.take(i) =~= s);
        if s.len() > 0 {
            assert(all_digits(s.drop_last())) by {
                assert forall|k: int| 0 <= k < s.len() - 1 implies is_digit(
                    #[trigger] s.drop_last()[k],
                ) by {
                    assert(s.drop_last()[k] == s[k]);
                }
            }
            assert(is_digit(s[s.len() - 1]));
            prefix_value(s.drop_last(), s.len() - 1);
            assert(s.drop_last().take(s.len() - 1) =~= s.drop_last());
        }
    } else {
        let t = s.drop_last();
        assert(all_digits(t)) by {
            assert forall|k: int| 0 <= k < t.len() implies is_digit(#[trigger] t[k]) by {
                assert(t[k] == s[k]);
            }
        }
        prefix_value(t, i);
        assert(t.take(i) =~= s.take(i));
        assert(is_digit(s[s.len() - 1]));
    }
}

/// The characters of a text.
fn chars_of(s: &str) -> (out: Vec<char>)
    ensures
        out@ == s@,
{
    let n: usize = s.unicode_len();
    let mut out: Vec<char> = Vec::new();
    let mut i: usize = 0;
    while i < n
        invariant
            i <= n,
            n == s@.len(),
            out@ == s@.take(i as int),
        decreases n - i,
    {
        out.push(s.get_char(i));
        i = i + 1;
        assert(out@ =~= s@.take(i as int));
    }
    assert(s@.take(n as int) =~= s@);
    out
}

/// Reads the decimal number in `s[from..to]`.
fn number_between(s: &[char], from: usize, to: usize, max: u64) -> (r: Option<u64>)
    requires
        from <= to <= s@.len(),
    ensures
        r == number_in(s@.subrange(from as int, to as int), max),
        r is Some ==> r->0 <= max,
{
    let ghost whole = s@.subrange(from as int, to as int);
    let ghost d = unsigned_part(whole);
    let start: usize = if from < to && s[from] == '+' {
        from + 1
    } else {
        from
    };
    assert(d =~= s@.subrange(start as int, to as int));
    if start == to {
        return None;
    }
    let mut v: u64 = 0;
    let mut i: usize = start;
    assert(d.take(0) =~= Seq::empty());
    while i < to
        invariant
            start <= i <= to <= s@.len(),
            start < to,
            d == s@.subrange(start as int, to as int),
            whole == s@.subrange(from as int, to as int),
            d == unsigned_part(whole),
            forall|k: int| 0 <= k < i - start ==> is_digit(#[trigger] d[k]),
            v == digits_value(d.take(i - start)),
            v <= max,
        decreases to - i,
    {
        let c: char = s[i];
        assert(c == d[i - start]);
        let value: u8 = match digit(c) {
            Some(x) => x,
            None => {
                assert(!is_digit(d[i - start]));
                return None;
            },
        };
        assert(d.take(i - start + 1).drop_last() =~= d.take(i - start));
        let next: u128 = 10 * (v as u128) + value as u128;
        assert(next == digits_value(d.take(i - start + 1)));
        if next > max as u128 {
            proof {
                if all_digits(d) {
                    prefix_value(d, i - start + 1);
                }
            }
            return None;
        }
        v = next as u64;
        i = i + 1;
    }
    assert(d.take(to - start) =~= d);
    assert(all_digits(d));
    Some(v)
}

/// What stands behind the last `c`, or all of it.
pub open spec fn after_last(s: Seq<char>, c: char) -> Seq<char>
    decreases s.len(),
{
    if s.len() == 0 || s.last() == c {
        Seq::empty()
    } else {
        after_last(s.drop_last(), c).push(s.last())
    }
}

/// What stands before the first `c`, or all of it.
pub open spec fn before_first(s: Seq<char>, c: char) -> Seq<char>
    decreases s.len(),
{
    if s.len() == 0 || s[0] == c {
        Seq::empty()
    } else {
        seq![s[0]] + before_first(s.skip(1), c)
    }
}

/// Where the part behind the last `c` begins.
fn last_part(s: &[char], c: char) -> (at: usize)
    ensures
        at <= s@.len(),
        s@.subrange(at as int, s@.len() as int) == after_last(s@, c),
{
    let n: usize = s.len();
    let mut at: usize = n;
    while at > 0 && s[at - 1] != c
        invariant
            at <= n,
            n == s@.len(),
            forall|k: int| at <= k < n ==> #[trigger] s@[k] != c,
        decreases at,
    {
        at = at - 1;
    }
    proof {
        suffix_is_after_last(s@, c, at as int);
    }
    at
}

proof fn suffix_is_after_last(s: Seq<char>, c: char, at: int)
    requires
        0 <= at <= s.len(),
        forall|k: int| at <= k < s.len() ==> #[trigger] s[k] != c,
        at > 0 ==> s[at - 1] == c,
    ensures
        s.subrange(at, s.len() as int) == after_last(s, c),
    decreases s.len(),
{
    if at == s.len() {
        assert(s.subrange(at, s.len() as int) =~= Seq::empty());
        if s.len() == 0 {
        } else {
            assert(s.last() == c);
        }
    } else {
        let t = s.drop_last();
        assert forall|k: int| at <= k < t.len() implies #[trigger] t[k] != c by {
            assert(t[k] == s[k]);
        }
        if at > 0 {
            assert(t[at - 1] == s[at - 1]);
        }
        suffix_is_after_last(t, c, at);
        assert(s[s.len() - 1] != c);
        assert(s.subrange(at, s.len() as int) =~= t.subrange(at, t.len() as int).push(s.last()));
    }
}

/// Where the first `c` from `from` on stands, or the end.
fn first_at(s: &[char], from: usize, c: char) -> (at: usize)
    requires
        from <= s@.len(),
    ensures
        from <= at <= s@.len(),
        forall|k: int| from <= k < at ==> #[trigger] s@[k] != c,
        at < s@.len() ==> s@[at as int] == c,
        s@.subrange(from as int, at as int) == before_first(
            s@.subrange(from as int, s@.len() as int),
            c,
        ),
{
    let n: usize = s.len();
    let mut at: usize = from;
    while at < n && s[at] != c
        invariant
            from <= at <= n,
            n == s@.len(),
            forall|k: int| from <= k < at ==> #[trigger] s@[k] != c,
        decreases n - at,
    {
        at = at + 1;
    }
    proof {
        let rest = s@.subrange(from as int, n as int);
        assert forall|k: int| 0 <= k < at - from implies #[trigger] rest[k] != c by {
            assert(rest[k] == s@[from + k]);
        }
        if at < n {
            assert(rest[at - from] == s@[at as int]);
        }
        prefix_is_before_first(rest, c, at - from);
        assert(rest.take(at - from) =~= s@.subrange(from as int, at as int));
    }
    at
}

proof fn prefix_is_before_first(s: Seq<char>, c: char, at: int)
    requires
        0 <= at <= s.len(),
        forall|k: int| 0 <= k < at ==> #[trigger] s[k] != c,
        at < s.len() ==> s[at] == c,
    ensures
        s.take(at) == before_first(s, c),
    decreases s.len(),
{
    if at == 0 {
        assert(s.take(0) =~= Seq::empty());
    } else {
        let t = s.skip(1);
        assert forall|k: int| 0 <= k < at - 1 implies #[trigger] t[k] != c by {
            assert(t[k] == s[k + 1]);
        }
        if at < s.len() {
            assert(t[at - 1] == s[at]);
        }
        prefix_is_before_first(t, c, at - 1);
        assert(s[0] != c);
        assert(s.take(at) =~= seq![s[0]] + t.take(at - 1));
    }
}

/// A listen address whose port cannot be read.
#[derive(Debug, Clone, Copy, PartialEq, Eq, Structural)]
pub struct InvalidListenAddress;

/// The port of a listen address such as `":4443"` or `"0.0.0.0:4443"`: the
/// number behind the last colon.
pub fn parse_listen_port(listen_addr: &str) -> (r: Result<u16, InvalidListenAddress>)
    ensures
        match number_in(after_last(listen_addr@, ':'), 65535) {
            Some(port) => r == Ok::<u16, InvalidListenAddress>(port as u16),
            None => r == Err::<u16, InvalidListenAddress>(InvalidListenAddress),
        },
{
    let s: Vec<char> = chars_of(listen_addr);
    let at: usize = last_part(s.as_slice(), ':');
    match number_between(s.as_slice(), at, s.len(), 65535) {
        Some(port) => Ok(port as u16),
        None => Err(InvalidListenAddress),
    }
}

/// Reads a number up to `max`, for instance a seed.
pub fn parse_number(text: &str, max: u64) -> (r: Option<u64>)
    ensures
        r == number_in(text@, max),
        r is Some ==> r->0 <= max,
{
    let s: Vec<char> = chars_of(text);
    let r = number_between(s.as_slice(), 0, s.len(), max);
    assert(s@.subrange(0, s@.len() as int) =~= text@);
    r
}

/// What stands behind the first `c`; nothing if there is none.
pub open spec fn after_first(s: Seq<char>, c: char) -> Option<Seq<char>> {
    let n = before_first(s, c).len();
    if n < s.len() {
        Some(s.skip(n as int + 1))
    } else {
        None
    }
}

/// The pair of numbers in `"x,y"`; a third part is ignored.
pub open spec fn pair_in(s: Seq<char>) -> Option<(u32, u32)> {
    match (number_in(before_first(s, ','), 0xFFFF_FFFF), after_first(s, ',')) {
        (Some(x), Some(rest)) => match number_in(before_first(rest, ','), 0xFFFF_FFFF) {
            Some(y) => Some((x as u32, y as u32)),
            None => None,
        },
        _ => None,
    }
}

/// The tile whose next payload is to be spoiled, from `"x,y"`.
pub fn oob_injector(setting: Option<&str>) -> (r: Option<(u32, u32)>)
    ensures
        r == (match setting {
            Some(s) => pair_in(s@),
            None => None,
        }),
{
    let text: &str = match setting {
        Some(t) => t,
        None => {
            return None;
        },
    };
    let s: Vec<char> = chars_of(text);
    let n: usize = s.len();
    let comma: usize = first_at(s.as_slice(), 0, ',');
    assert(s@.subrange(0, s@.len() as int) =~= text@);
    assert(before_first(text@, ',').len() == comma);
    let x: u64 = match number_between(s.as_slice(), 0, comma, 0xFFFF_FFFF) {
        Some(v) => v,
        None => {
            return None;
        },
    };
    if comma == n {
        return None;
    }
    let end: usize = first_at(s.as_slice(), comma + 1, ',');
    assert(s@.subrange(comma + 1, s@.len() as int) =~= text@.skip(comma + 1));
    match number_between(s.as_slice(), comma + 1, end, 0xFFFF_FFFF) {
        Some(y) => Some((x as u32, y as u32)),
        None => None,
    }
}

/// Whether two texts are the same.
fn same_text(a: &str, b: &str) -> (r: bool)
    ensures
        r == (a@ == b@),
{
    let x: Vec<char> = chars_of(a);
    let y: Vec<char> = chars_of(b);
    if x.len() != y.len() {
        return false;
    }
    let n: usize = x.len();
    let mut i: usize = 0;
    while i < n
        invariant
            i <= n,
            n == x@.len(),
            n == y@.len(),
            x@ == a@,
            y@ == b@,
            forall|k: int| 0 <= k < i ==> x@[k] == y@[k],
        decreases n - i,
    {
        if x[i] != y[i] {
            assert(a@[i as int] != b@[i as int]);
            return false;
        }
        i = i + 1;
    }
    assert(a@ =~= b@);
    true
}

/// The word `true`, in any case.
pub open spec fn is_true_any_case(s: Seq<char>) -> bool {
    &&& s.len() == 4
    &&& s[0] == 't' || s[0] == 'T'
    &&& s[1] == 'r' || s[1] == 'R'
    &&& s[2] == 'u' || s[2] == 'U'
    &&& s[3] == 'e' || s[3] == 'E'
}

/// Whether a character is one of two.
fn is_either(c: char, lower: char, upper: char) -> (r: bool)
    ensures
        r == (c == lower || c == upper),
{
    c == lower || c == upper
}

/// A setting is on as `1` or `true`.
pub fn flag_is_set(setting: Option<&str>) -> (on: bool)
    ensures
        on == (setting matches Some(s) && (s@ == "1"@ || s@ == "true"@)),
{
    match setting {
        Some(s) => same_text(s, "1") || same_text(s, "true"),
        None => false,
    }
}

/// A setting is on as `1` or as `true` in any case.
pub fn flag_is_set_any_case(setting: Option<&str>) -> (on: bool)
    ensures
        on == (setting matches Some(s) && (s@ == "1"@ || is_true_any_case(s@))),
{
    match setting {
        Some(text) => {
            if same_text(text, "1") {
                return true;
            }
            let s: Vec<char> = chars_of(text);
            s.len() == 4 && is_either(s[0], 't', 'T') && is_either(s[1], 'r', 'R') && is_either(
                s[2],
                'u',
                'U',
            ) && is_either(s[3], 'e', 'E')
        },
        None => false,
    }
}

/// The parity group size from a setting, or zero.
pub fn fec_group_setting(setting: Option<&str>) -> (k: usize)
    ensures
        k == (match setting {
            Some(s) => match number_in(s@, usize::MAX as u64) {
                Some(v) => v as usize,
                None => 0,
            },
            None => 0,
        }),
{
    match setting {
        Some(s) => match parse_number(s, usize::MAX as u64) {
            Some(v) => v as usize,
            None => 0,
        },
        None => 0,
    }
}

/// Which of a node's addresses to bind: the first of version 4, else the
/// first.  A bare port cannot be bound.
pub open spec fn bind_choice(is_ipv4: Seq<bool>) -> Option<int> {
    if exists|i: int| is_first_ipv4(is_ipv4, i) {
        Some(choose|i: int| is_first_ipv4(is_ipv4, i))
    } else if is_ipv4.len() > 0 {
        Some(0)
    } else {
        None
    }
}

pub open spec fn is_first_ipv4(is_ipv4: Seq<bool>, i: int) -> bool {
    &&& 0 <= i < is_ipv4.len()
    &&& is_ipv4[i]
    &&& forall|j: int| 0 <= j < i ==> !(#[trigger] is_ipv4[j])
}

/// Computes `bind_choice`, given for each address whether it is of version 4.
pub fn choose_bind_address(is_ipv4: &[bool]) -> (r: Option<usize>)
    ensures
        match (r, bind_choice(is_ipv4@)) {
            (Some(i), Some(j)) => i == j,
            (None, None) => true,
            _ => false,
        },
{
    let n: usize = is_ipv4.len();
    let mut i: usize = 0;
    while i < n
        invariant
            i <= n,
            n == is_ipv4@.len(),
            forall|j: int| 0 <= j < i ==> !(#[trigger] is_ipv4@[j]),
        decreases n - i,
    {
        if is_ipv4[i] {
            proof {
                assert(is_first_ipv4(is_ipv4@, i as int));
                let k = choose|k: int| is_first_ipv4(is_ipv4@, k);
                if k < i {
                    assert(!is_ipv4@[k]);
                } else if k > i {
                    assert(!is_ipv4@[i as int]);
                }
            }
            return Some(i);
        }
        i = i + 1;
    }
    assert(!(exists|k: int| is_first_ipv4(is_ipv4@, k))) by {
        if exists|k: int| is_first_ipv4(is_ipv4@, k) {
            let k = choose|k: int| is_first_ipv4(is_ipv4@, k);
            assert(!is_ipv4@[k]);
        }
    }
    if n > 0 {
        Some(0)
    } else {
        None
    }
}

/// Which datagrams an injected loss can hit.
#[derive(Debug, Clone, Copy, PartialEq, Eq, Structural)]
pub enum DropKind {
    All,
    Tile,
    Ack,
    PalRleBundled,
    PalRleThin,
}

/// The kind that a setting names; all datagrams if it names none.
pub open spec fn kind_named(setting: Option<Seq<char>>) -> DropKind {
    match setting {
        Some(s) => if s == "tile"@ {
            DropKind::Tile
        } else if s == "ack"@ {
            DropKind::Ack
        } else if s == "palrle_bundled"@ {
            DropKind::PalRleBundled
        } else if s == "palrle_thin"@ {
            DropKind::PalRleThin
        } else {
            DropKind::All
        },
        None => DropKind::All,
    }
}

/// A PalRle tile datagram, with its codec and flags where short headers put
/// them.
pub open spec fn is_palrle(dg: Seq<u8>) -> bool {
    dg.len() >= 21 && dg[0] >= 0x80 && dg[14] / 2 == Codec::PalRle.code()
}

impl DropKind {
    pub open spec fn picked(self, dg: Seq<u8>) -> bool {
        match self {
            DropKind::All => true,
            DropKind::Tile => dg.len() > 0 && dg[0] >= 0x80,
            DropKind::Ack => dg.len() > 0 && dg[0] == ACK_BATCH_MSG_TYPE,
            DropKind::PalRleBundled => is_palrle(dg) && dg[20] % 2 == 1,
            DropKind::PalRleThin => is_palrle(dg) && dg[20] % 2 == 0,
        }
    }

    /// Whether the loss can hit the datagram.
    pub fn picks(&self, dg: &[u8]) -> (b: bool)
        ensures
            b == self.picked(dg@),
    {
        match *self {
            DropKind::All => true,
            DropKind::Tile => dg.len() > 0 && dg[0] >= 0x80,
            DropKind::Ack => dg.len() > 0 && dg[0] == ACK_BATCH_MSG_TYPE,
            DropKind::PalRleBundled => dg.len() >= 21 && dg[0] >= 0x80 && dg[14] / 2
                == Codec::PalRle.to_u8() && dg[20] % 2 == 1,
            DropKind::PalRleThin => dg.len() >= 21 && dg[0] >= 0x80 && dg[14] / 2
                == Codec::PalRle.to_u8() && dg[20] % 2 == 0,
        }
    }

    /// The kind that a setting names.
    pub fn from_setting(setting: Option<&str>) -> (k: DropKind)
        ensures
            k == kind_named(
                match setting {
                    Some(s) => Some(s@),
                    None => None,
                },
            ),
    {
        match setting {
            Some(s) => if same_text(s, "tile") {
                DropKind::Tile
            } else if same_text(s, "ack") {
                DropKind::Ack
            } else if same_text(s, "palrle_bundled") {
                DropKind::PalRleBundled
            } else if same_text(s, "palrle_thin") {
                DropKind::PalRleThin
            } else {
                DropKind::All
            },
            None => DropKind::All,
        }
    }
}

/// How loss is injected into one direction.
#[derive(Debug, Clone, Copy, PartialEq, Eq, Structural)]
pub struct LossSettings {
    /// Out of [`crate::loss_injection::PROBABILITY_ONE`].
    pub probability: u32,
    pub kind: DropKind,
    pub seed: u64,
}

/// The settings of injected loss: none without a positive probability.  A seed
/// that cannot be read is zero.
pub fn loss_injector(probability: u32, predicate: Option<&str>, seed: Option<&str>) -> (r: Option<
    LossSettings,
>)
    ensures
        r == (if probability == 0 {
            None
        } else {
            Some(
                LossSettings {
                    probability,
                    kind: kind_named(
                        match predicate {
                            Some(s) => Some(s@),
                            None => None,
                        },
                    ),
                    seed: (match seed {
                        Some(s) => match number_in(s@, u64::MAX) {
                            Some(v) => v,
                            None => 0,
                        },
                        None => 0,
                    }),
                },
            )
        }),
{
    if probability == 0 {
        return None;
    }
    let seed: u64 = match seed {
        Some(s) => match parse_number(s, u64::MAX) {
            Some(v) => v,
            None => 0,
        },
        None => 0,
    };
    Some(LossSettings { probability, kind: DropKind::from_setting(predicate), seed })
}

} // verus!
