//! Seeded random loss for end-to-end tests.
//!
//! Drops a known fraction of the datagrams that a predicate picks, such as all
//! tile datagrams or only acknowledgements.  The same seed gives the same
//! drops.
use vstd::prelude::*;

verus! {

/// What a drop probability is counted in: a probability of one is this many.
pub const PROBABILITY_ONE: u32 = 0x100_0000;

/// The generator's state after one more number.
pub open spec fn next_state(state: u64) -> u64 {
    ((state + 0x9E37_79B9_7F4A_7C15) % 0x1_0000_0000_0000_0000) as u64
}

/// The product, its low 64 bits.
pub open spec fn low_product(a: u64, b: u64) -> u64 {
    ((a * b) % 0x1_0000_0000_0000_0000) as u64
}

/// The number that a state gives: two rounds of shift, exclusive or and
/// multiplication, and a last shift.
pub open spec fn number_of(state: u64) -> u64 {
    let a = low_product(state ^ (state >> 30), 0xBF58_476D_1CE4_E5B9);
    let b = low_product(a ^ (a >> 27), 0x94D0_49BB_1331_11EB);
    b ^ (b >> 31)
}

/// The fraction that a number stands for, out of [`PROBABILITY_ONE`].
pub open spec fn fraction_of(number: u64) -> u64 {
    number >> 40
}

/// SplitMix64, a small deterministic generator.
struct SplitMix {
    state: u64,
}

impl SplitMix {
    fn next_u64(&mut self) -> (n: u64)
        ensures
            final(self).state == next_state(old(self).state),
            n == number_of(next_state(old(self).state)),
    {
        self.state = self.state.wrapping_add(0x9E37_79B9_7F4A_7C15);
        let s: u64 = self.state;
        let a: u64 = (s ^ (s >> 30)).wrapping_mul(0xBF58_476D_1CE4_E5B9);
        let b: u64 = (a ^ (a >> 27)).wrapping_mul(0x94D0_49BB_1331_11EB);
        b ^ (b >> 31)
    }
}

/// Drops datagrams that a predicate picks, with some probability.
pub struct LossInjector<F> {
    threshold: u32,
    predicate: F,
    rng: SplitMix,
}

impl<F: Fn(&[u8]) -> bool> LossInjector<F> {
    /// The drop probability, out of [`PROBABILITY_ONE`].
    pub closed spec fn probability(&self) -> u32 {
        self.threshold
    }

    /// Which datagrams may be dropped.
    pub closed spec fn picks(&self) -> F {
        self.predicate
    }

    /// The state of the random numbers.
    pub closed spec fn random_state(&self) -> u64 {
        self.rng.state
    }

    /// An injector with a drop probability out of [`PROBABILITY_ONE`].
    pub fn new(drop_probability: u32, predicate: F, seed: u64) -> (i: Self)
        ensures
            i.probability() == drop_probability,
            i.picks() == predicate,
            i.random_state() == seed,
    {
        LossInjector { threshold: drop_probability, predicate, rng: SplitMix { state: seed } }
    }

    /// Whether the datagram is to be dropped.  One that the predicate does not
    /// pick uses up no random number.
    pub fn should_drop(&mut self, datagram: &[u8]) -> (b: bool)
        requires
            call_requires(old(self).picks(), (datagram,)),
        ensures
            final(self).probability() == old(self).probability(),
            final(self).picks() == old(self).picks(),
            exists|picked: bool|
                call_ensures(old(self).picks(), (datagram,), picked) && if picked {
                    &&& final(self).random_state() == next_state(old(self).random_state())
                    &&& b == (fraction_of(number_of(next_state(old(self).random_state())))
                        < old(self).probability())
                } else {
                    &&& final(self).random_state() == old(self).random_state()
                    &&& !b
                },
    {
        let picked: bool = (self.predicate)(datagram);
        if !picked {
            return false;
        }
        let n: u64 = self.rng.next_u64();
        (n >> 40) < self.threshold as u64
    }
}

/// With probability zero nothing is dropped, with probability one everything
/// that is picked.
pub proof fn extremes_are_certain(number: u64)
    ensures
        !(fraction_of(number) < 0),
        fraction_of(number) < PROBABILITY_ONE,
{
    assert(number >> 40 < 0x100_0000) by (bit_vector);
}

/// The generator steps through its states evenly, and the same step from two
/// states never meets.
pub proof fn states_are_stepped_through(a: u64, b: u64)
    ensures
        (next_state(a) - a - 0x9E37_79B9_7F4A_7C15) % 0x1_0000_0000_0000_0000 == 0,
        next_state(a) == next_state(b) ==> a == b,
{
}

/// The fraction that a number stands for lies below one and is the number
/// scaled down, rounded towards zero.
pub proof fn a_fraction_is_below_one(n: u64)
    ensures
        fraction_of(n) < PROBABILITY_ONE,
        fraction_of(n) * 0x100_0000_0000 <= n < (fraction_of(n) + 1) * 0x100_0000_0000,
{
    assert(n >> 40 == n / 0x100_0000_0000) by (bit_vector);
}

/// The last step of the generator loses nothing, nor does any shift before it.
pub proof fn shifts_lose_nothing(a: u64, b: u64)
    ensures
        a ^ (a >> 30) == b ^ (b >> 30) ==> a == b,
        a ^ (a >> 27) == b ^ (b >> 27) ==> a == b,
        a ^ (a >> 31) == b ^ (b >> 31) ==> a == b,
{
    assert(a ^ (a >> 30) == b ^ (b >> 30) ==> a == b) by (bit_vector);
    assert(a ^ (a >> 27) == b ^ (b >> 27) ==> a == b) by (bit_vector);
    assert(a ^ (a >> 31) == b ^ (b >> 31) ==> a == b) by (bit_vector);
}

/// How a state becomes a number: shifts are divisions, products keep their low
/// 64 bits.
pub proof fn a_state_gives_its_number(s: u64, a: u64, b: u64)
    requires
        (a - (s ^ (s / 0x4000_0000)) * 0xBF58_476D_1CE4_E5B9) % 0x1_0000_0000_0000_0000 == 0,
        (b - (a ^ (a / 0x800_0000)) * 0x94D0_49BB_1331_11EB) % 0x1_0000_0000_0000_0000 == 0,
    ensures
        number_of(s) == b ^ (b / 0x8000_0000),
{
    assert(s >> 30 == s / 0x4000_0000) by (bit_vector);
    assert(a >> 27 == a / 0x800_0000) by (bit_vector);
    assert(b >> 31 == b / 0x8000_0000) by (bit_vector);
    let x = s ^ (s >> 30);
    assert(low_product(x, 0xBF58_476D_1CE4_E5B9) == a);
    let y = a ^ (a >> 27);
    assert(low_product(y, 0x94D0_49BB_1331_11EB) == b);
}

} // verus!
