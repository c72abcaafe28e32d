//! Bytewise exclusive or over byte strings of one length.
use vstd::prelude::*;

verus! {

/// `n` zero bytes.
pub open spec fn zeros(n: nat) -> Seq<u8> {
    Seq::new(n, |i: int| 0u8)
}

/// `s` cut or zero-padded on the right to `n` bytes.
pub open spec fn fit_right(s: Seq<u8>, n: nat) -> Seq<u8> {
    Seq::new(
        n,
        |i: int|
            if i < s.len() {
                s[i]
            } else {
                0u8
            },
    )
}

/// `s` zero-padded on the left to `n` bytes.
pub open spec fn pad_left(s: Seq<u8>, n: nat) -> Seq<u8> {
    Seq::new(
        n,
        |i: int|
            if i >= n - s.len() {
                s[i - (n - s.len())]
            } else {
                0u8
            },
    )
}

/// Exclusive or of two byte strings, as long as the first.
pub open spec fn xor2(a: Seq<u8>, b: Seq<u8>) -> Seq<u8> {
    Seq::new(a.len(), |i: int| a[i] ^ b[i])
}

/// Exclusive or of all of `parts`, each `n` bytes long.
pub open spec fn xor_all(parts: Seq<Seq<u8>>, n: nat) -> Seq<u8>
    decreases parts.len(),
{
    if parts.len() == 0 {
        zeros(n)
    } else {
        xor2(xor_all(parts.drop_last(), n), parts.last())
    }
}

/// Every part is `n` bytes long.
pub open spec fn all_of_len(parts: Seq<Seq<u8>>, n: nat) -> bool {
    forall|i: int| 0 <= i < parts.len() ==> (#[trigger] parts[i]).len() == n
}

/// The exclusive or of parts of length `n` is `n` bytes long.
pub proof fn xor_all_len(parts: Seq<Seq<u8>>, n: nat)
    ensures
        xor_all(parts, n).len() == n,
    decreases parts.len(),
{
    if parts.len() > 0 {
        xor_all_len(parts.drop_last(), n);
    }
}

proof fn byte_laws(a: u8, b: u8, c: u8)
    ensures
        (a ^ b) ^ c == (a ^ c) ^ b,
        (a ^ b) ^ b == a,
        a ^ a == 0,
        a ^ 0 == a,
        0 ^ a == a,
        a ^ b == b ^ a,
        (a ^ b) ^ c == a ^ (b ^ c),
{
    assert((a ^ b) ^ c == (a ^ c) ^ b && (a ^ b) ^ b == a && a ^ a == 0 && a ^ 0 == a && 0 ^ a == a
        && a ^ b == b ^ a && (a ^ b) ^ c == a ^ (b ^ c)) by (bit_vector);
}

/// The order of two operands does not matter.
pub proof fn xor2_swap(a: Seq<u8>, b: Seq<u8>, c: Seq<u8>)
    ensures
        xor2(xor2(a, b), c) == xor2(xor2(a, c), b),
{
    assert forall|i: int| 0 <= i < a.len() implies #[trigger] xor2(xor2(a, b), c)[i] == xor2(
        xor2(a, c),
        b,
    )[i] by {
        byte_laws(a[i], b[i], c[i]);
    }
    assert(xor2(xor2(a, b), c) =~= xor2(xor2(a, c), b));
}

/// Applying the same operand twice undoes it.
pub proof fn xor2_undo(a: Seq<u8>, b: Seq<u8>)
    ensures
        xor2(xor2(a, b), b) == a,
{
    assert forall|i: int| 0 <= i < a.len() implies #[trigger] xor2(xor2(a, b), b)[i] == a[i] by {
        byte_laws(a[i], b[i], 0);
    }
    assert(xor2(xor2(a, b), b) =~= a);
}

/// Taking one part out and applying it last gives the same.
pub proof fn xor_all_take_out(parts: Seq<Seq<u8>>, n: nat, j: int)
    requires
        0 <= j < parts.len(),
    ensures
        xor_all(parts, n) == xor2(xor_all(parts.remove(j), n), parts[j]),
    decreases parts.len(),
{
    let rest = parts.remove(j);
    if j == parts.len() - 1 {
        assert(rest =~= parts.drop_last());
    } else {
        xor_all_take_out(parts.drop_last(), n, j);
        assert(rest.drop_last() =~= parts.drop_last().remove(j));
        assert(rest.last() == parts.last());
        xor2_swap(xor_all(parts.drop_last().remove(j), n), parts[j], parts.last());
    }
}

/// One missing part is recovered: the exclusive or of the parity of all parts
/// and the parity of all parts but one is that one.
pub proof fn missing_part_is_recovered(parts: Seq<Seq<u8>>, n: nat, j: int)
    requires
        all_of_len(parts, n),
        0 <= j < parts.len(),
    ensures
        xor2(xor_all(parts, n), xor_all(parts.remove(j), n)) == parts[j],
{
    xor_all_take_out(parts, n, j);
    let r = xor_all(parts.remove(j), n);
    xor_all_len(parts.remove(j), n);
    let p = parts[j];
    assert forall|i: int| 0 <= i < n implies #[trigger] xor2(xor2(r, p), r)[i] == p[i] by {
        byte_laws(r[i], p[i], r[i]);
        byte_laws(p[i], r[i], 0);
    }
    assert(xor2(xor2(r, p), r) =~= p);
}

/// Starting from the parity and applying the other parts one by one gives the
/// missing part as well.
pub proof fn parity_then_others_recovers(parts: Seq<Seq<u8>>, n: nat, j: int)
    requires
        all_of_len(parts, n),
        0 <= j < parts.len(),
    ensures
        xor_all(seq![xor_all(parts, n)] + parts.remove(j), n) == parts[j],
{
    let p = xor_all(parts, n);
    let rest = parts.remove(j);
    xor_all_len(parts, n);
    prepend(p, rest, n);
    missing_part_is_recovered(parts, n, j);
}

/// A leading part can be applied first.
pub proof fn prepend(p: Seq<u8>, rest: Seq<Seq<u8>>, n: nat)
    requires
        p.len() == n,
    ensures
        xor_all(seq![p] + rest, n) == xor2(p, xor_all(rest, n)),
    decreases rest.len(),
{
    let all = seq![p] + rest;
    if rest.len() == 0 {
        assert(all.drop_last() =~= Seq::<Seq<u8>>::empty());
        assert(all.last() == p);
        assert(xor_all(Seq::<Seq<u8>>::empty(), n) == zeros(n));
        assert(rest =~= Seq::<Seq<u8>>::empty());
        assert forall|i: int| 0 <= i < n implies #[trigger] xor2(zeros(n), p)[i] == xor2(
            p,
            zeros(n),
        )[i] by {
            byte_laws(p[i], 0, 0);
        }
        assert(xor2(zeros(n), p) =~= xor2(p, zeros(n)));
    } else {
        assert(all.drop_last() =~= seq![p] + rest.drop_last());
        assert(all.last() == rest.last());
        prepend(p, rest.drop_last(), n);
        xor_all_len(rest.drop_last(), n);
        let q = xor_all(rest.drop_last(), n);
        let l = rest.last();
        assert forall|i: int| 0 <= i < n implies #[trigger] xor2(xor2(p, q), l)[i] == xor2(
            p,
            xor2(q, l),
        )[i] by {
            byte_laws(p[i], q[i], l[i]);
        }
        assert(xor2(xor2(p, q), l) =~= xor2(p, xor2(q, l)));
    }
}

/// What is filled up at the end begins with what it was and goes on with
/// zeros; what is filled up at the start ends with it.
pub proof fn filling_keeps_the_bytes(s: Seq<u8>, n: nat, i: int)
    requires
        s.len() <= n,
        0 <= i < n,
    ensures
        fit_right(s, n).len() == n && pad_left(s, n).len() == n,
        i < s.len() ==> fit_right(s, n)[i] == s[i],
        i >= s.len() ==> fit_right(s, n)[i] == 0,
        i < n - s.len() ==> pad_left(s, n)[i] == 0,
        i >= n - s.len() ==> pad_left(s, n)[i] == s[i - (n - s.len())],
{
}

/// The exclusive or of a single part is the part.
pub proof fn one_part_is_itself(s: Seq<u8>)
    ensures
        xor_all(seq![s], s.len()) == s,
{
    reveal_with_fuel(xor_all, 2);
    assert(seq![s].drop_last() =~= Seq::empty());
    assert(seq![s].last() == s);
    assert forall|i: int| 0 <= i < s.len() implies 0u8 ^ (#[trigger] s[i]) == s[i] by {
        let x = s[i];
        assert(0u8 ^ x == x) by (bit_vector);
    }
    assert(xor_all(seq![s], s.len()) =~= s);
}

} // verus!
