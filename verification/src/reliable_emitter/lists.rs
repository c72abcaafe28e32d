//! Short lists kept inline, as most cache entries hold a single fragment.
use smallvec::SmallVec;
use vstd::prelude::*;

verus! {

/// The fragments of one tile-pass: inline up to two.
#[verifier::external_body]
#[derive(Debug)]
pub struct FragmentList {
    items: SmallVec<[Vec<u8>; 2]>,
}

/// The emission numbers of those fragments: inline up to two.
#[verifier::external_body]
#[derive(Debug)]
pub struct WireSeqList {
    items: SmallVec<[u32; 2]>,
}

/// What a fragment list holds, in order.
pub uninterp spec fn fragment_items(list: FragmentList) -> Seq<Seq<u8>>;

/// What an emission number list holds, in order.
pub uninterp spec fn wire_seq_items(list: WireSeqList) -> Seq<u32>;

/// The contents of a list of buffers.
pub open spec fn contents(list: Seq<Vec<u8>>) -> Seq<Seq<u8>> {
    list.map_values(|b: Vec<u8>| b@)
}

/// `SmallVec::from_vec`: the list holds the vector's items, in order.
#[verifier::external_body]
fn fragments_from_vec(items: Vec<Vec<u8>>) -> (list: FragmentList)
    ensures
        fragment_items(list) == contents(items@),
{
    FragmentList { items: SmallVec::from_vec(items) }
}

/// `SmallVec::as_slice`: the whole list as a slice, in order.
#[verifier::external_body]
fn fragments_as_slice(list: &FragmentList) -> (items: &[Vec<u8>])
    ensures
        contents(items@) == fragment_items(*list),
{
    list.items.as_slice()
}

/// `SmallVec::from_vec`: the list holds the vector's items, in order.
#[verifier::external_body]
fn wire_seqs_from_vec(items: Vec<u32>) -> (list: WireSeqList)
    ensures
        wire_seq_items(list) == items@,
{
    WireSeqList { items: SmallVec::from_vec(items) }
}

/// `SmallVec::as_slice`: the whole list as a slice, in order.
#[verifier::external_body]
fn wire_seqs_as_slice(list: &WireSeqList) -> (items: &[u32])
    ensures
        items@ == wire_seq_items(*list),
{
    list.items.as_slice()
}

impl View for FragmentList {
    type V = Seq<Seq<u8>>;

    open spec fn view(&self) -> Seq<Seq<u8>> {
        fragment_items(*self)
    }
}

impl View for WireSeqList {
    type V = Seq<u32>;

    open spec fn view(&self) -> Seq<u32> {
        wire_seq_items(*self)
    }
}

impl FragmentList {
    pub fn of(items: Vec<Vec<u8>>) -> (list: Self)
        ensures
            list@ == contents(items@),
    {
        fragments_from_vec(items)
    }

    pub fn as_slice(&self) -> (items: &[Vec<u8>])
        ensures
            contents(items@) == self@,
    {
        fragments_as_slice(self)
    }
}

impl WireSeqList {
    pub fn of(items: Vec<u32>) -> (list: Self)
        ensures
            list@ == items@,
    {
        wire_seqs_from_vec(items)
    }

    pub fn as_slice(&self) -> (items: &[u32])
        ensures
            items@ == self@,
    {
        wire_seqs_as_slice(self)
    }
}

} // verus!
