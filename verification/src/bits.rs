//! Sixteen-bit sets: one bit per refinement pass.
use vstd::prelude::*;

verus! {

/// Whether bit `i` of `mask` is set.
pub open spec fn has_bit(mask: u16, i: u8) -> bool {
    (mask & (1u16 << (i as u16))) != 0
}

/// `mask` with bit `i` set.
pub open spec fn with_bit(mask: u16, i: u8) -> u16 {
    mask | (1u16 << (i as u16))
}

/// The mask of the bits below `n`; all sixteen from `n = 16` on.
pub open spec fn low_mask(n: u8) -> u16 {
    if n >= 16 {
        0xFFFF
    } else {
        ((1u16 << (n as u16)) - 1) as u16
    }
}

/// Number of set bits below `n`.
pub open spec fn count_below(mask: u16, n: u8) -> nat
    decreases n,
{
    if n == 0 {
        0
    } else {
        count_below(mask, (n - 1) as u8) + (if has_bit(mask, (n - 1) as u8) {
            1nat
        } else {
            0nat
        })
    }
}

/// Number of set bits.
pub open spec fn count_bits(mask: u16) -> nat {
    count_below(mask, 16)
}

/// Setting a bit sets that bit and no other.
pub proof fn with_bit_has(mask: u16, i: u8, j: u8)
    requires
        i < 16,
        j < 16,
    ensures
        has_bit(with_bit(mask, i), j) == (has_bit(mask, j) || i == j),
{
    assert(((mask | (1u16 << (i as u16))) & (1u16 << (j as u16)) != 0) == ((mask & (1u16 << (
    j as u16))) != 0 || i == j)) by (bit_vector)
        requires
            i < 16,
            j < 16,
    ;
}

/// Setting a bit that is set changes nothing.
pub proof fn with_bit_idempotent(mask: u16, i: u8)
    requires
        i < 16,
        has_bit(mask, i),
    ensures
        with_bit(mask, i) == mask,
{
    assert((mask & (1u16 << (i as u16))) != 0 ==> mask | (1u16 << (i as u16)) == mask)
        by (bit_vector)
        requires
            i < 16,
    ;
}

/// No bit of the empty mask is set.
pub proof fn zero_has_no_bit(i: u8)
    ensures
        !has_bit(0, i),
{
    assert((0u16 & (1u16 << (i as u16))) == 0) by (bit_vector);
}

/// The low mask holds exactly the bits below `n`.
pub proof fn low_mask_has(n: u8, j: u8)
    requires
        j < 16,
    ensures
        has_bit(low_mask(n), j) == (j < n),
{
    if n >= 16 {
        assert((0xFFFFu16 & (1u16 << (j as u16))) != 0) by (bit_vector)
            requires
                j < 16,
        ;
    } else {
        low_mask_positive(n);
        assert((((((1u16 << (n as u16)) - 1) as u16) & (1u16 << (j as u16))) != 0) == (j < n))
            by (bit_vector)
            requires
                j < 16,
                n < 16,
        ;
    }
}

/// The low mask is computed without underflow.
proof fn low_mask_positive(n: u8)
    requires
        n < 16,
    ensures
        (1u16 << (n as u16)) >= 1,
{
    assert((1u16 << (n as u16)) >= 1) by (bit_vector)
        requires
            n < 16,
    ;
}

/// Bits of the difference of two masks.
pub proof fn difference_has(a: u16, b: u16, j: u8)
    requires
        j < 16,
    ensures
        has_bit(a & !b, j) == (has_bit(a, j) && !has_bit(b, j)),
{
    assert((((a & !b) & (1u16 << (j as u16))) != 0) == ((a & (1u16 << (j as u16))) != 0 && (b & (
    1u16 << (j as u16))) == 0)) by (bit_vector)
        requires
            j < 16,
    ;
}

/// A mask covers another exactly when it has every bit of it.
pub proof fn covers_bits(mask: u16, needed: u16)
    ensures
        (mask & needed) == needed <==> (forall|j: u8|
            j < 16 && has_bit(needed, j) ==> #[trigger] has_bit(mask, j)),
{
    if (mask & needed) == needed {
        assert forall|j: u8| j < 16 && has_bit(needed, j) implies #[trigger] has_bit(mask, j) by {
            assert((needed & (1u16 << (j as u16))) != 0 ==> (mask & (1u16 << (j as u16))) != 0)
                by (bit_vector)
                requires
                    j < 16,
                    (mask & needed) == needed,
            ;
        }
    } else {
        let missing = needed & !mask;
        assert(missing != 0) by (bit_vector)
            requires
                (mask & needed) != needed,
                missing == needed & !mask,
        ;
        some_bit(missing);
        let j = choose|j: u8| j < 16 && has_bit(missing, j);
        difference_has(needed, mask, j);
        assert(has_bit(needed, j) && !has_bit(mask, j));
    }
}

/// A nonzero mask has a set bit.
pub proof fn some_bit(mask: u16)
    requires
        mask != 0,
    ensures
        exists|j: u8| j < 16 && has_bit(mask, j),
{
    assert(mask != 0 ==> (mask & 1u16 << 0 != 0) || (mask & 1u16 << 1 != 0) || (mask & 1u16 << 2
        != 0) || (mask & 1u16 << 3 != 0) || (mask & 1u16 << 4 != 0) || (mask & 1u16 << 5 != 0) || (
    mask & 1u16 << 6 != 0) || (mask & 1u16 << 7 != 0) || (mask & 1u16 << 8 != 0) || (mask & 1u16
        << 9 != 0) || (mask & 1u16 << 10 != 0) || (mask & 1u16 << 11 != 0) || (mask & 1u16 << 12
        != 0) || (mask & 1u16 << 13 != 0) || (mask & 1u16 << 14 != 0) || (mask & 1u16 << 15 != 0))
        by (bit_vector);
    assert(has_bit(mask, 0) || has_bit(mask, 1) || has_bit(mask, 2) || has_bit(mask, 3) || has_bit(
        mask,
        4,
    ) || has_bit(mask, 5) || has_bit(mask, 6) || has_bit(mask, 7) || has_bit(mask, 8) || has_bit(
        mask,
        9,
    ) || has_bit(mask, 10) || has_bit(mask, 11) || has_bit(mask, 12) || has_bit(mask, 13)
        || has_bit(mask, 14) || has_bit(mask, 15));
}

/// At most `n` bits below `n` are set.
pub proof fn count_below_bound(mask: u16, n: u8)
    ensures
        count_below(mask, n) <= n,
    decreases n,
{
    if n > 0 {
        count_below_bound(mask, (n - 1) as u8);
    }
}

/// Tests bit `i`.
pub fn test_bit(mask: u16, i: u8) -> (b: bool)
    requires
        i < 16,
    ensures
        b == has_bit(mask, i),
{
    (mask & (1u16 << (i as u16))) != 0
}

/// Sets bit `i`.
pub fn set_bit(mask: u16, i: u8) -> (r: u16)
    requires
        i < 16,
    ensures
        r == with_bit(mask, i),
{
    mask | (1u16 << (i as u16))
}

/// Computes `low_mask`.
pub fn low_bits(n: u8) -> (r: u16)
    ensures
        r == low_mask(n),
{
    if n >= 16 {
        0xFFFF
    } else {
        proof {
            low_mask_positive(n);
        }
        (1u16 << (n as u16)) - 1
    }
}

/// Counts the set bits.
pub fn count_ones(mask: u16) -> (n: u8)
    ensures
        n == count_bits(mask),
        n <= 16,
{
    let mut n: u8 = 0;
    let mut i: u8 = 0;
    while i < 16
        invariant
            i <= 16,
            n == count_below(mask, i),
            n <= i,
        decreases 16 - i,
    {
        if test_bit(mask, i) {
            n = n + 1;
        }
        i = i + 1;
    }
    n
}

} // verus!
