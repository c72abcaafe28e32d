//! XOR parity over groups of frame fragments.
//!
//! A parity payload is `[group_start: u16 BE][group_len: u8][xor data]`; the
//! fragments of a group are zero-padded on the right to the longest one.
use crate::protocol;
use crate::wire;
use crate::wire::{push_be16, push_bytes, read_be16};
use crate::xor;
use vstd::prelude::*;
use vstd::slice::slice_subrange;

verus! {

broadcast use vstd::slice::group_slice_axioms;

/// `group_start` (2) and `group_len` (1).
pub const PARITY_HEADER_SIZE: usize = 3;

/// The contents of a list of slices.
pub open spec fn contents(payloads: Seq<&[u8]>) -> Seq<Seq<u8>> {
    payloads.map_values(|p: &[u8]| p@)
}

/// The contents, each fitted to `n` bytes.
pub open spec fn fitted(payloads: Seq<Seq<u8>>, n: nat) -> Seq<Seq<u8>> {
    payloads.map_values(|p: Seq<u8>| xor::fit_right(p, n))
}

/// The length of the longest.
pub open spec fn longest(payloads: Seq<Seq<u8>>) -> nat
    decreases payloads.len(),
{
    if payloads.len() == 0 {
        0
    } else if longest(payloads.drop_last()) >= payloads.last().len() {
        longest(payloads.drop_last())
    } else {
        payloads.last().len()
    }
}

/// No payload is longer than the longest.
pub proof fn longest_bounds(payloads: Seq<Seq<u8>>, i: int)
    requires
        0 <= i < payloads.len(),
    ensures
        payloads[i].len() <= longest(payloads),
    decreases payloads.len(),
{
    if i < payloads.len() - 1 {
        longest_bounds(payloads.drop_last(), i);
    }
}

/// Computes the length of the longest of `payloads[from..to]`.
fn longest_of(payloads: &[&[u8]], from: usize, to: usize) -> (n: usize)
    requires
        from <= to <= payloads@.len(),
    ensures
        n == longest(contents(payloads@.subrange(from as int, to as int))),
{
    let mut best: usize = 0;
    let mut i: usize = from;
    assert(payloads@.subrange(from as int, from as int) =~= Seq::empty());
    while i < to
        invariant
            from <= i <= to <= payloads@.len(),
            best == longest(contents(payloads@.subrange(from as int, i as int))),
        decreases to - i,
    {
        let p: &[u8] = payloads[i];
        if p.len() > best {
            best = p.len();
        }
        proof {
            let s = contents(payloads@.subrange(from as int, i + 1));
            assert(s.drop_last() =~= contents(payloads@.subrange(from as int, i as int)));
            assert(s.last() == p@);
        }
        i = i + 1;
    }
    best
}

/// XORs `part` into `acc`, ignoring what lies beyond the end of `acc`.
fn xor_into(acc: &mut Vec<u8>, part: &[u8])
    ensures
        final(acc)@ == xor::xor2(old(acc)@, xor::fit_right(part@, old(acc)@.len())),
{
    let n: usize = if acc.len() <= part.len() {
        acc.len()
    } else {
        part.len()
    };
    let mut i: usize = 0;
    while i < n
        invariant
            i <= n <= part@.len(),
            n <= acc@.len(),
            acc@.len() == old(acc)@.len(),
            forall|j: int| 0 <= j < i ==> #[trigger] acc@[j] == old(acc)@[j] ^ part@[j],
            forall|j: int| i <= j < acc@.len() ==> #[trigger] acc@[j] == old(acc)@[j],
        decreases n - i,
    {
        let b: u8 = acc[i] ^ part[i];
        acc.set(i, b);
        i = i + 1;
    }
    proof {
        assert forall|j: int| 0 <= j < acc@.len() implies #[trigger] acc@[j] == old(acc)@[j]
            ^ xor::fit_right(part@, old(acc)@.len())[j] by {
            if j >= n {
                let a = old(acc)@[j];
                assert(a ^ 0u8 == a) by (bit_vector);
            }
        }
        assert(acc@ =~= xor::xor2(old(acc)@, xor::fit_right(part@, old(acc)@.len())));
    }
}

/// XORs `payloads[from..to]`, each cut or zero-padded to `max_len`.
fn xor_range(payloads: &[&[u8]], from: usize, to: usize, max_len: usize) -> (out: Vec<u8>)
    requires
        from <= to <= payloads@.len(),
    ensures
        out@ == xor::xor_all(
            fitted(contents(payloads@.subrange(from as int, to as int)), max_len as nat),
            max_len as nat,
        ),
        out@.len() == max_len,
{
    let mut result: Vec<u8> = vec![0u8; max_len];
    let mut i: usize = from;
    assert(payloads@.subrange(from as int, from as int) =~= Seq::empty());
    assert(result@ =~= xor::zeros(max_len as nat));
    while i < to
        invariant
            from <= i <= to <= payloads@.len(),
            result@.len() == max_len,
            result@ == xor::xor_all(
                fitted(contents(payloads@.subrange(from as int, i as int)), max_len as nat),
                max_len as nat,
            ),
        decreases to - i,
    {
        xor_into(&mut result, payloads[i]);
        proof {
            let s = fitted(contents(payloads@.subrange(from as int, i + 1)), max_len as nat);
            assert(s.drop_last() =~= fitted(
                contents(payloads@.subrange(from as int, i as int)),
                max_len as nat,
            ));
        }
        i = i + 1;
    }
    result
}

/// XORs all payloads, each cut or zero-padded on the right to `max_len`.
pub fn xor_payloads(payloads: &[&[u8]], max_len: usize) -> (out: Vec<u8>)
    ensures
        out@ == xor::xor_all(fitted(contents(payloads@), max_len as nat), max_len as nat),
        out@.len() == max_len,
{
    assert(payloads@.subrange(0, payloads@.len() as int) =~= payloads@);
    xor_range(payloads, 0, payloads.len(), max_len)
}

/// Group `g` of the fragments, `k` to a group.
pub open spec fn group(fragments: Seq<Seq<u8>>, k: nat, g: int) -> Seq<Seq<u8>> {
    fragments.subrange(
        g * k,
        if (g + 1) * k <= fragments.len() {
            (g + 1) * k
        } else {
            fragments.len() as int
        },
    )
}

/// The XOR data of a group.
pub open spec fn group_xor(members: Seq<Seq<u8>>) -> Seq<u8> {
    xor::xor_all(fitted(members, longest(members)), longest(members))
}

/// The parity of group `g`: where it starts, and its payload.
pub open spec fn group_parity(fragments: Seq<Seq<u8>>, k: nat, g: int) -> (u16, Seq<u8>) {
    let members = group(fragments, k, g);
    let start = protocol::low16(g * k);
    (
        start,
        wire::be16_bytes(start) + seq![(members.len() % 256) as u8] + group_xor(members),
    )
}

/// The parities of the first `n` groups, those of single fragments left out.
pub open spec fn parities(fragments: Seq<Seq<u8>>, k: nat, n: nat) -> Seq<(u16, Seq<u8>)>
    decreases n,
{
    if n == 0 {
        Seq::empty()
    } else {
        let g = n - 1;
        if group(fragments, k, g).len() > 1 {
            parities(fragments, k, g as nat).push(group_parity(fragments, k, g))
        } else {
            parities(fragments, k, g as nat)
        }
    }
}

/// A parity is no longer than its header and the longest fragment.
pub proof fn parity_lengths(fragments: Seq<Seq<u8>>, k: nat, n: nat, max: nat)
    requires
        k > 0,
        n <= protocol::chunk_count(fragments.len(), k),
        fragments.len() > 0,
        forall|i: int| 0 <= i < fragments.len() ==> (#[trigger] fragments[i]).len() <= max,
    ensures
        forall|i: int|
            0 <= i < parities(fragments, k, n).len() ==> (#[trigger] parities(
                fragments,
                k,
                n,
            )[i]).1.len() <= PARITY_HEADER_SIZE + max,
    decreases n,
{
    if n > 0 {
        let g = n - 1;
        parity_lengths(fragments, k, g as nat, max);
        protocol::chunk_bounds(fragments.len(), k, g as int);
        let members = group(fragments, k, g as int);
        assert forall|i: int| 0 <= i < members.len() implies (#[trigger] members[i]).len()
            <= max by {
            assert(members[i] == fragments[g * k + i]);
        }
        longest_at_most(members, max);
        xor::xor_all_len(fitted(members, longest(members)), longest(members));
        let p = group_parity(fragments, k, g as int);
        assert(p.1.len() == PARITY_HEADER_SIZE + longest(members));
        let before = parities(fragments, k, g as nat);
        let all = parities(fragments, k, n);
        assert forall|i: int| 0 <= i < all.len() implies (#[trigger] all[i]).1.len()
            <= PARITY_HEADER_SIZE + max by {
            if i < before.len() {
                assert(all[i] == before[i]);
            } else {
                assert(all[i] == p);
            }
        }
    }
}

/// Groups of one fragment have no parity.
pub proof fn no_parity_of_one(fragments: Seq<Seq<u8>>, n: nat)
    requires
        n <= fragments.len(),
    ensures
        parities(fragments, 1, n).len() == 0,
    decreases n,
{
    if n > 0 {
        no_parity_of_one(fragments, (n - 1) as nat);
    }
}

/// The contents of a list of parities.
pub open spec fn parity_contents(list: Seq<(u16, Vec<u8>)>) -> Seq<(u16, Seq<u8>)> {
    list.map_values(|p: (u16, Vec<u8>)| (p.0, p.1@))
}

/// Groups every `k` fragments and XORs each group.
///
/// The result holds, for every group of at least two, where it starts and its
/// parity payload; there is nothing for `k = 0` or no fragments.  A group of
/// one is left out: its fragment could not be recovered.
pub fn generate_parity(fragment_payloads: &[&[u8]], k: usize) -> (out: Vec<(u16, Vec<u8>)>)
    ensures
        parity_contents(out@) == (if k == 0 || fragment_payloads@.len() == 0 {
            Seq::empty()
        } else {
            parities(
                contents(fragment_payloads@),
                k as nat,
                protocol::chunk_count(fragment_payloads@.len(), k as nat),
            )
        }),
{
    let mut result: Vec<(u16, Vec<u8>)> = Vec::new();
    let len: usize = fragment_payloads.len();
    assert(parity_contents(result@) =~= Seq::empty());
    if k == 0 || len == 0 {
        return result;
    }
    let ghost fragments = contents(fragment_payloads@);
    let total: usize = group_count(len, k);
    let mut g: usize = 0;
    let mut start: usize = 0;
    while g < total
        invariant
            k > 0,
            len > 0,
            len == fragment_payloads@.len(),
            fragments == contents(fragment_payloads@),
            total == protocol::chunk_count(len as nat, k as nat),
            g <= total,
            g < total ==> start == g * k,
            parity_contents(result@) == parities(fragments, k as nat, g as nat),
        decreases total - g,
    {
        proof {
            protocol::chunk_bounds(len as nat, k as nat, g as int);
        }
        let end: usize = if len - start >= k {
            start + k
        } else {
            len
        };
        let ghost members = group(fragments, k as nat, g as int);
        assert(members =~= contents(fragment_payloads@.subrange(start as int, end as int)));
        if end - start > 1 {
            let group_start: u16 = (start % 0x1_0000) as u16;
            let max_len: usize = longest_of(fragment_payloads, start, end);
            let xor_data: Vec<u8> = xor_range(fragment_payloads, start, end, max_len);
            let mut payload: Vec<u8> = Vec::new();
            push_be16(&mut payload, group_start);
            payload.push(((end - start) % 256) as u8);
            push_bytes(&mut payload, xor_data.as_slice());
            assert(payload@ =~= group_parity(fragments, k as nat, g as int).1);
            result.push((group_start, payload));
            assert(parity_contents(result@) =~= parities(
                fragments,
                k as nat,
                g as nat,
            ).push(group_parity(fragments, k as nat, g as int)));
        }
        start = end;
        g = g + 1;
    }
    result
}

fn group_count(len: usize, k: usize) -> (n: usize)
    requires
        k > 0,
        len > 0,
    ensures
        n == protocol::chunk_count(len as nat, k as nat),
{
    assert(0 <= (len - 1) / k as int <= len - 1) by (nonlinear_arith)
        requires
            k > 0,
            len > 0,
    ;
    (len - 1) / k + 1
}

/// Splits a parity payload into group start, group length and XOR data; fails
/// exactly when it is shorter than its header.
pub fn decode_parity_payload(payload: &[u8]) -> (r: Option<(u16, u8, &[u8])>)
    ensures
        match r {
            Some(p) => payload@.len() >= PARITY_HEADER_SIZE && p.0 == wire::be16_at(payload@, 0)
                && p.1 == payload@[2] && p.2@ == payload@.skip(PARITY_HEADER_SIZE as int),
            None => payload@.len() < PARITY_HEADER_SIZE,
        },
{
    if payload.len() < PARITY_HEADER_SIZE {
        return None;
    }
    let xor_data = slice_subrange(payload, PARITY_HEADER_SIZE, payload.len());
    assert(xor_data@ =~= payload@.skip(PARITY_HEADER_SIZE as int));
    Some((read_be16(payload, 0), payload[2], xor_data))
}

/// What recovery from these fragments and this parity gives: as long as the
/// longest of them all.
pub open spec fn recovered(received: Seq<Seq<u8>>, parity: Seq<u8>) -> Seq<u8> {
    let all = seq![parity] + received;
    xor::xor_all(fitted(all, longest(all)), longest(all))
}

/// Recovers the one missing fragment of a group from all the others and the
/// group's XOR data.
pub fn recover_fragment(received: &[&[u8]], parity_xor_data: &[u8]) -> (out: Vec<u8>)
    ensures
        out@ == recovered(contents(received@), parity_xor_data@),
{
    let mut all: Vec<&[u8]> = Vec::new();
    all.push(parity_xor_data);
    let mut i: usize = 0;
    while i < received.len()
        invariant
            i <= received@.len(),
            all@ == seq![parity_xor_data] + received@.take(i as int),
        decreases received@.len() - i,
    {
        all.push(received[i]);
        i = i + 1;
        assert(all@ =~= seq![parity_xor_data] + received@.take(i as int));
    }
    assert(all@.subrange(0, all@.len() as int) =~= all@);
    assert(contents(all@) =~= seq![parity_xor_data@] + contents(received@));
    let max_len: usize = longest_of(all.as_slice(), 0, all.len());
    xor_payloads(all.as_slice(), max_len)
}

/// Any one fragment of a group is recovered from the others and the group's
/// XOR data, zero-padded on the right to the longest of the group.
pub proof fn lost_fragment_is_recovered(members: Seq<Seq<u8>>, j: int)
    requires
        0 <= j < members.len(),
    ensures
        recovered(members.remove(j), group_xor(members)) == xor::fit_right(
            members[j],
            longest(members),
        ),
{
    let n = longest(members);
    let parts = fitted(members, n);
    let parity = group_xor(members);
    let all = seq![parity] + members.remove(j);
    xor::xor_all_len(parts, n);
    longest_of_recovery(members, j);
    assert(longest(all) == n);
    assert(fitted(all, n) =~= seq![parity] + parts.remove(j)) by {
        assert(xor::fit_right(parity, n) =~= parity);
    }
    xor::parity_then_others_recovers(parts, n, j);
}

/// A list whose members are bounded by one of them has that as its longest.
proof fn longest_is(payloads: Seq<Seq<u8>>, n: nat, at: int)
    requires
        0 <= at < payloads.len(),
        payloads[at].len() == n,
        forall|i: int| 0 <= i < payloads.len() ==> (#[trigger] payloads[i]).len() <= n,
    ensures
        longest(payloads) == n,
    decreases payloads.len(),
{
    if at == payloads.len() - 1 {
        longest_at_most(payloads.drop_last(), n);
    } else {
        longest_is(payloads.drop_last(), n, at);
        assert(payloads[payloads.len() - 1].len() <= n);
    }
}

proof fn longest_at_most(payloads: Seq<Seq<u8>>, n: nat)
    requires
        forall|i: int| 0 <= i < payloads.len() ==> (#[trigger] payloads[i]).len() <= n,
    ensures
        longest(payloads) <= n,
    decreases payloads.len(),
{
    if payloads.len() > 0 {
        longest_at_most(payloads.drop_last(), n);
        assert(payloads[payloads.len() - 1].len() <= n);
    }
}

proof fn longest_of_recovery(members: Seq<Seq<u8>>, j: int)
    requires
        0 <= j < members.len(),
    ensures
        longest(seq![group_xor(members)] + members.remove(j)) == longest(members),
{
    let n = longest(members);
    let all = seq![group_xor(members)] + members.remove(j);
    xor::xor_all_len(fitted(members, n), n);
    assert forall|i: int| 0 <= i < all.len() implies (#[trigger] all[i]).len() <= n by {
        if i > 0 {
            let at = if i - 1 < j {
                i - 1
            } else {
                i
            };
            assert(all[i] == members[at]);
            longest_bounds(members, at);
        }
    }
    longest_is(all, n, 0);
}

/// The order of the parts does not matter.
proof fn xor_in_any_order(a: Seq<Seq<u8>>, b: Seq<Seq<u8>>, n: nat)
    requires
        a.to_multiset() == b.to_multiset(),
    ensures
        xor::xor_all(fitted(a, n), n) == xor::xor_all(fitted(b, n), n),
    decreases a.len(),
{
    a.to_multiset_ensures();
    b.to_multiset_ensures();
    assert(a.len() == b.len());
    if a.len() == 0 {
        assert(a =~= b);
    } else {
        let x = a.last();
        assert(a[a.len() - 1] == x);
        assert(a.contains(x));
        assert(b.to_multiset().count(x) > 0);
        let i = choose|i: int| 0 <= i < b.len() && b[i] == x;
        assert(a.remove(a.len() - 1) =~= a.drop_last());
        assert(a.drop_last().to_multiset() =~= b.remove(i).to_multiset());
        xor_in_any_order(a.drop_last(), b.remove(i), n);
        xor::xor_all_take_out(fitted(b, n), n, i);
        assert(fitted(b, n).remove(i) =~= fitted(b.remove(i), n));
        assert(fitted(a, n).drop_last() =~= fitted(a.drop_last(), n));
    }
}

/// The one fragment of a group that is lost is recovered from the others, in
/// whatever order they come, and the data of the group's parity: the result is
/// as long as the longest fragment, begins with the lost one, and is zero
/// behind it.
pub proof fn lost_fragment_is_recovered_in_any_order(
    frags: Seq<Seq<u8>>,
    i: int,
    received: Seq<Seq<u8>>,
)
    requires
        frags.len() >= 2,
        0 <= i < frags.len(),
        received.to_multiset() == frags.remove(i).to_multiset(),
    ensures
        ({
            let list = parities(
                frags,
                frags.len(),
                protocol::chunk_count(frags.len(), frags.len()),
            );
            let result = recovered(received, list[0].1.skip(PARITY_HEADER_SIZE as int));
            &&& list.len() == 1
            &&& result.len() == longest(frags)
            &&& result.take(frags[i].len() as int) == frags[i]
            &&& forall|k: int| frags[i].len() <= k < result.len() ==> result[k] == 0
        }),
{
    let n = longest(frags);
    let k = frags.len();
    assert((k - 1) / k as int == 0) by (nonlinear_arith)
        requires
            k >= 2,
    ;
    assert(0 * k == 0 && 1 * k == k) by (nonlinear_arith);
    assert(group(frags, k, 0) =~= frags);
    reveal_with_fuel(parities, 2);
    let list = parities(frags, k, protocol::chunk_count(k, k));
    let parity = group_xor(frags);
    assert(list =~= seq![group_parity(frags, k, 0)]);
    assert(list[0].1.skip(PARITY_HEADER_SIZE as int) =~= parity);
    let rest = frags.remove(i);
    let all = seq![parity] + received;
    xor::xor_all_len(fitted(frags, n), n);
    assert forall|j: int| 0 <= j < all.len() implies (#[trigger] all[j]).len() <= n by {
        if j > 0 {
            let x = received[j - 1];
            assert(all[j] == x);
            received.to_multiset_ensures();
            rest.to_multiset_ensures();
            assert(received.contains(x));
            assert(rest.to_multiset().count(x) > 0);
            let m = choose|m: int| 0 <= m < rest.len() && rest[m] == x;
            let at = if m < i {
                m
            } else {
                m + 1
            };
            assert(frags[at] == x);
            longest_bounds(frags, at);
        }
    }
    longest_is(all, n, 0);
    xor_in_any_order(received, rest, n);
    assert(xor::fit_right(parity, n) =~= parity);
    assert(fitted(all, n) =~= seq![parity] + fitted(received, n));
    xor::prepend(parity, fitted(received, n), n);
    xor::prepend(parity, fitted(rest, n), n);
    lost_fragment_is_recovered(frags, i);
    longest_of_recovery(frags, i);
    assert(fitted(seq![parity] + rest, n) =~= seq![parity] + fitted(rest, n));
    longest_bounds(frags, i);
    let result = recovered(received, parity);
    assert(result == xor::fit_right(frags[i], n));
    assert(result.take(frags[i].len() as int) =~= frags[i]);
}

/// The longest is one of them, and there is none longer.
pub proof fn the_longest_is_one_of_them(payloads: Seq<Seq<u8>>)
    ensures
        payloads.len() == 0 ==> longest(payloads) == 0,
        payloads.len() > 0 ==> exists|i: int|
            0 <= i < payloads.len() && (#[trigger] payloads[i]).len() == longest(payloads),
    decreases payloads.len(),
{
    if payloads.len() > 0 {
        let front = payloads.drop_last();
        let n = payloads.len() - 1;
        the_longest_is_one_of_them(front);
        if longest(payloads) == payloads[n].len() {
        } else {
            let i = choose|i: int|
                0 <= i < front.len() && (#[trigger] front[i]).len() == longest(front);
            assert(payloads[i] == front[i]);
        }
    }
}

/// A parity is as long as the longest fragment of its group.
pub proof fn a_parity_is_as_long_as_the_longest(members: Seq<Seq<u8>>)
    requires
        members.len() > 0,
    ensures
        exists|i: int|
            0 <= i < members.len() && (#[trigger] members[i]).len() == group_xor(members).len(),
        forall|i: int|
            0 <= i < members.len() ==> (#[trigger] members[i]).len() <= group_xor(members).len(),
{
    let n = longest(members);
    xor::xor_all_len(fitted(members, n), n);
    the_longest_is_one_of_them(members);
    assert forall|i: int| 0 <= i < members.len() implies (#[trigger] members[i]).len() <= n by {
        longest_bounds(members, i);
    }
}

} // verus!
