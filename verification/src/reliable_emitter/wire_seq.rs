//! Per-session emission numbers.
use vstd::prelude::*;

verus! {

/// Hands out consecutive numbers, wrapping after the last.
#[derive(Debug, Clone, Copy)]
pub struct WireSeqAllocator {
    pub next: u32,
}

impl WireSeqAllocator {
    pub fn new() -> (a: Self)
        ensures
            a.next == 0,
    {
        WireSeqAllocator { next: 0 }
    }

    /// The number that `allocate` gives next.
    pub fn peek(&self) -> (v: u32)
        ensures
            v == self.next,
    {
        self.next
    }

    pub fn allocate(&mut self) -> (v: u32)
        ensures
            v == old(self).next,
            final(self).next == (v + 1) % 0x1_0000_0000,
    {
        let v: u32 = self.next;
        self.next = self.next.wrapping_add(1);
        v
    }
}

impl Default for WireSeqAllocator {
    fn default() -> (a: Self)
        ensures
            a.next == 0,
    {
        WireSeqAllocator::new()
    }
}

/// The allocator's state after `n` allocations from `start`.
pub open spec fn after_allocations(start: u32, n: nat) -> int {
    (start + n) % 0x1_0000_0000
}

/// The first 2^32 numbers handed out are all different, and before the wrap
/// each is one more than the one before.
pub proof fn allocations_are_distinct(start: u32, i: nat, j: nat)
    requires
        i < j < i + 0x1_0000_0000,
    ensures
        after_allocations(start, i) != after_allocations(start, j),
        after_allocations(start, i) + 1 < 0x1_0000_0000 ==> after_allocations(start, i + 1)
            == after_allocations(start, i) + 1,
{
}

} // verus!
