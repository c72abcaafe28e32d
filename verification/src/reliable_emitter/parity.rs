//! XOR parity over groups of source datagrams of varying lengths.
//!
//! Shorter sources are zero-padded on the left to the longest one.
use crate::fec;
use crate::wire;
use crate::xor;
use vstd::prelude::*;

verus! {

broadcast use vstd::slice::group_slice_axioms;

/// The parity of a full group, and what its envelope says of the group.
#[derive(Debug, Clone)]
pub struct GroupResult {
    pub group_first_wire_seq: u32,
    pub k: u8,
    /// Length of the group's first source.
    pub first_len: u16,
    pub parity: Vec<u8>,
}

/// The sources, each zero-padded on the left to `n` bytes.
pub open spec fn padded(sources: Seq<Seq<u8>>, n: nat) -> Seq<Seq<u8>> {
    sources.map_values(|s: Seq<u8>| xor::pad_left(s, n))
}

/// The parity of a group of sources: as long as the longest.
pub open spec fn parity_of(sources: Seq<Seq<u8>>) -> Seq<u8> {
    xor::xor_all(padded(sources, fec::longest(sources)), fec::longest(sources))
}

/// The contents of a list of buffers.
pub open spec fn buffers(list: Seq<Vec<u8>>) -> Seq<Seq<u8>> {
    list.map_values(|b: Vec<u8>| b@)
}

/// Collects sources until a group is full.
pub struct GroupBuilder {
    target_k: usize,
    first_wire_seq: Option<u32>,
    first_len: u16,
    sources: Vec<Vec<u8>>,
}

impl GroupBuilder {
    /// The group size.
    pub closed spec fn size(&self) -> nat {
        self.target_k as nat
    }

    /// The sources of the group so far.
    pub closed spec fn pending(&self) -> Seq<Seq<u8>> {
        buffers(self.sources@)
    }

    /// The emission number of the group's first source.
    pub closed spec fn first(&self) -> Option<u32> {
        self.first_wire_seq
    }

    /// The group has a first source exactly if it has any, and its length is
    /// the one on record.
    pub closed spec fn wf(&self) -> bool {
        &&& self.first_wire_seq is Some <==> self.sources@.len() > 0
        &&& self.sources@.len() > 0 ==> self.first_len == self.sources@[0]@.len() % 0x1_0000
    }

    pub fn new(k: usize) -> (g: Self)
        ensures
            g.wf(),
            g.size() == k,
            g.pending() == Seq::<Seq<u8>>::empty(),
            g.first() is None,
    {
        let g = GroupBuilder {
            target_k: k,
            first_wire_seq: None,
            first_len: 0,
            sources: Vec::new(),
        };
        assert(g.pending() =~= Seq::<Seq<u8>>::empty());
        g
    }

    /// Adds a source.  The source that fills the group closes it: its parity
    /// is returned and the next group starts empty.
    pub fn add(&mut self, wire_seq: u32, source_bytes: &[u8]) -> (r: Option<GroupResult>)
        requires
            old(self).wf(),
        ensures
            final(self).wf(),
            final(self).size() == old(self).size(),
            ({
                let group = old(self).pending().push(source_bytes@);
                let first = if old(self).first() is Some {
                    old(self).first()->0
                } else {
                    wire_seq
                };
                match r {
                    None => group.len() < old(self).size() && final(self).pending() == group
                        && final(self).first() == Some(first),
                    Some(g) => {
                        &&& group.len() >= old(self).size()
                        &&& g.group_first_wire_seq == first
                        &&& g.k == old(self).size() % 256
                        &&& g.first_len == group[0].len() % 0x1_0000
                        &&& g.parity@ == parity_of(group)
                        &&& final(self).pending() == Seq::<Seq<u8>>::empty()
                        &&& final(self).first() is None
                    },
                }
            }),
    {
        if self.first_wire_seq.is_none() {
            self.first_wire_seq = Some(wire_seq);
            self.first_len = (source_bytes.len() % 0x1_0000) as u16;
        }
        let copy: Vec<u8> = wire::copy_range(source_bytes, 0, source_bytes.len());
        assert(copy@ =~= source_bytes@);
        self.sources.push(copy);
        assert(self.pending() =~= old(self).pending().push(source_bytes@));
        assert(self.pending()[0] == self.sources@[0]@);
        if self.sources.len() < self.target_k {
            return None;
        }
        let parity: Vec<u8> = xor_buffers(&self.sources);
        let result = GroupResult {
            group_first_wire_seq: self.first_wire_seq.unwrap(),
            k: (self.target_k % 256) as u8,
            first_len: self.first_len,
            parity,
        };
        self.reset();
        Some(result)
    }

    fn reset(&mut self)
        ensures
            final(self).wf(),
            final(self).size() == old(self).size(),
            final(self).pending() == Seq::<Seq<u8>>::empty(),
            final(self).first() is None,
    {
        self.first_wire_seq = None;
        self.first_len = 0;
        self.sources.clear();
        assert(self.pending() =~= Seq::<Seq<u8>>::empty());
    }
}

/// XORs `src` into the end of `out`.
fn xor_into_end(out: &mut Vec<u8>, src: &[u8])
    requires
        src@.len() <= old(out)@.len(),
    ensures
        final(out)@ == xor::xor2(old(out)@, xor::pad_left(src@, old(out)@.len())),
{
    let n: usize = out.len();
    let pad: usize = n - src.len();
    let mut i: usize = 0;
    while i < src.len()
        invariant
            i <= src@.len(),
            pad + src@.len() == n,
            n == out@.len(),
            out@.len() == old(out)@.len(),
            forall|j: int| 0 <= j < pad ==> #[trigger] out@[j] == old(out)@[j],
            forall|j: int|
                pad <= j < pad + i ==> #[trigger] out@[j] == old(out)@[j] ^ src@[j - pad],
            forall|j: int| pad + i <= j < out@.len() ==> #[trigger] out@[j] == old(out)@[j],
        decreases src@.len() - i,
    {
        let b: u8 = out[pad + i] ^ src[i];
        out.set(pad + i, b);
        i = i + 1;
    }
    proof {
        assert forall|j: int| 0 <= j < out@.len() implies #[trigger] out@[j] == old(out)@[j]
            ^ xor::pad_left(src@, old(out)@.len())[j] by {
            if j < pad {
                let a = old(out)@[j];
                assert(a ^ 0u8 == a) by (bit_vector);
            }
        }
        assert(out@ =~= xor::xor2(old(out)@, xor::pad_left(src@, old(out)@.len())));
    }
}

/// XORs the buffers of a group.
fn xor_buffers(sources: &Vec<Vec<u8>>) -> (out: Vec<u8>)
    ensures
        out@ == parity_of(buffers(sources@)),
{
    let mut refs: Vec<&[u8]> = Vec::new();
    let mut i: usize = 0;
    while i < sources.len()
        invariant
            i <= sources@.len(),
            refs@.len() == i,
            forall|j: int| 0 <= j < i ==> (#[trigger] refs@[j])@ == sources@[j]@,
        decreases sources@.len() - i,
    {
        refs.push(sources[i].as_slice());
        i = i + 1;
    }
    assert(fec::contents(refs@) =~= buffers(sources@));
    xor_payloads(refs.as_slice())
}

/// XORs all sources, shorter ones zero-padded on the left; the result is as
/// long as the longest.
pub fn xor_payloads(sources: &[&[u8]]) -> (out: Vec<u8>)
    ensures
        out@ == parity_of(fec::contents(sources@)),
        out@.len() == fec::longest(fec::contents(sources@)),
{
    let ghost all = fec::contents(sources@);
    let mut max_len: usize = 0;
    let mut i: usize = 0;
    assert(all.take(0) =~= Seq::empty());
    while i < sources.len()
        invariant
            i <= sources@.len(),
            all == fec::contents(sources@),
            max_len == fec::longest(all.take(i as int)),
        decreases sources@.len() - i,
    {
        let s: &[u8] = sources[i];
        if s.len() > max_len {
            max_len = s.len();
        }
        assert(all.take(i + 1).drop_last() =~= all.take(i as int));
        assert(all.take(i + 1).last() == s@);
        i = i + 1;
    }
    assert(all.take(sources@.len() as int) =~= all);
    let ghost n = max_len as nat;
    let mut out: Vec<u8> = vec![0u8; max_len];
    let mut k: usize = 0;
    assert(padded(all, n).take(0) =~= Seq::empty());
    assert(out@ =~= xor::zeros(n));
    while k < sources.len()
        invariant
            k <= sources@.len(),
            all == fec::contents(sources@),
            n == fec::longest(all),
            n == max_len,
            out@.len() == n,
            out@ == xor::xor_all(padded(all, n).take(k as int), n),
        decreases sources@.len() - k,
    {
        proof {
            fec::longest_bounds(all, k as int);
            assert(padded(all, n).take(k + 1).drop_last() =~= padded(all, n).take(k as int));
            assert(padded(all, n).take(k + 1).last() == xor::pad_left(all[k as int], n));
        }
        xor_into_end(&mut out, sources[k]);
        k = k + 1;
    }
    assert(padded(all, n).take(sources@.len() as int) =~= padded(all, n));
    out
}

/// Any one source of a group is recovered from the group's parity and the
/// other sources: padded to the longest, XOR of all of them gives it, padded
/// on the left.
pub proof fn lost_source_is_recovered(sources: Seq<Seq<u8>>, j: int)
    requires
        0 <= j < sources.len(),
    ensures
        xor::xor_all(
            seq![parity_of(sources)] + padded(sources, fec::longest(sources)).remove(j),
            fec::longest(sources),
        ) == xor::pad_left(sources[j], fec::longest(sources)),
{
    let n = fec::longest(sources);
    xor::parity_then_others_recovers(padded(sources, n), n, j);
}

/// The padding is told apart from the source by the source's length alone.
pub proof fn padding_is_removed(s: Seq<u8>, n: nat)
    requires
        s.len() <= n,
    ensures
        xor::pad_left(s, n).skip(n - s.len()) == s,
{
    assert(xor::pad_left(s, n).skip(n - s.len()) =~= s);
}

} // verus!
