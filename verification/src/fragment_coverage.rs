//! What each emitted tile-pass carries, so that an acknowledgement can be
//! turned into delivery bookkeeping per tile.
//!
//! The key names frame, tile and pass: unique per emission within a frame,
//! also where many work items of a frame have a single fragment.
use crate::protocol::Codec;
use crate::reliable_emitter::cache;
use crate::reliable_emitter::EmitKey;
use crate::seqs;
use smallvec::SmallVec;
use std::collections::{HashMap, VecDeque};
use vstd::prelude::*;

verus! {

broadcast use {
    vstd::std_specs::hash::group_hash_axioms,
    vstd::std_specs::vecdeque::group_vec_dequeue_axioms,
    vstd::slice::group_slice_axioms,
};

/// One tile's payload in a work item.
#[derive(Debug, Clone, Copy, PartialEq, Eq, Structural)]
pub struct FragmentCoverage {
    pub tile_x: u8,
    pub tile_y: u8,
    pub generation: u8,
    /// Zero for every codec but Cdf53.
    pub pass_idx: u8,
    pub codec: Codec,
    /// Which palette a PalRle payload uses.
    pub palette_id: Option<u8>,
}

/// How many items a list holds inline.
pub const COVERAGE_INLINE_CAPACITY: usize = 8;

/// Frame, tile column, tile row and pass.
pub type CoverageKey = (u32, u8, u8, u8);

/// How many tile-passes are tracked in a session: all passes in flight on a
/// full grid over two frames, with headroom.  With fewer, entries would be
/// evicted faster than acknowledgements arrive.
pub const FRAGMENT_COVERAGE_CAPACITY: usize = 60_000;

/// What one work item carries.
#[verifier::external_body]
#[derive(Debug)]
pub struct CoverageList {
    items: SmallVec<[FragmentCoverage; COVERAGE_INLINE_CAPACITY]>,
}

/// What a coverage list holds, in order.
pub uninterp spec fn coverage_items(list: CoverageList) -> Seq<FragmentCoverage>;

/// `SmallVec::from_vec`: the list holds the vector's items, in order.
#[verifier::external_body]
fn coverage_from_vec(items: Vec<FragmentCoverage>) -> (list: CoverageList)
    ensures
        coverage_items(list) == items@,
{
    CoverageList { items: SmallVec::from_vec(items) }
}

/// `SmallVec::as_slice`: the whole list as a slice, in order.
#[verifier::external_body]
fn coverage_as_slice(list: &CoverageList) -> (items: &[FragmentCoverage])
    ensures
        items@ == coverage_items(*list),
{
    list.items.as_slice()
}

impl View for CoverageList {
    type V = Seq<FragmentCoverage>;

    open spec fn view(&self) -> Seq<FragmentCoverage> {
        coverage_items(*self)
    }
}

impl CoverageList {
    pub fn of(items: Vec<FragmentCoverage>) -> (list: Self)
        ensures
            list@ == items@,
    {
        coverage_from_vec(items)
    }

    pub fn as_slice(&self) -> (items: &[FragmentCoverage])
        ensures
            items@ == self@,
    {
        coverage_as_slice(self)
    }
}

/// The number of a key.
pub open spec fn number_of(key: CoverageKey) -> u64 {
    EmitKey { frame_seq: key.0, tile_x: key.1, tile_y: key.2, pass_idx: key.3 }.packed()
}

/// Computes `number_of`.
fn number(key: CoverageKey) -> (n: u64)
    ensures
        n == number_of(key),
{
    EmitKey::new(key.0, key.1, key.2, key.3).pack()
}

/// Some item is a Cdf53 pass.
pub open spec fn has_cdf53(list: Seq<FragmentCoverage>) -> bool {
    exists|i: int| 0 <= i < list.len() && (#[trigger] list[i]).codec == Codec::Cdf53
}

/// The key numbers that stay when the Cdf53 coverage of a tile is dropped.
pub open spec fn not_refining(
    entries: Map<u64, Seq<FragmentCoverage>>,
    tile_x: u8,
    tile_y: u8,
) -> spec_fn(u64) -> bool {
    |n: u64| !(EmitKey::unpacked(n).is_tile(tile_x, tile_y) && has_cdf53(entries[n]))
}

/// State of a [`FragmentCoverageMap`].
#[verifier::ext_equal]
pub struct CoverageView {
    pub capacity: nat,
    /// The numbers of the keys, oldest first.
    pub order: Seq<u64>,
    /// What each carries.
    pub entries: Map<u64, Seq<FragmentCoverage>>,
}

impl CoverageView {
    /// The order lists exactly the keys, each once, and the capacity holds.
    pub open spec fn wf(self) -> bool {
        &&& self.capacity > 0
        &&& self.order.no_duplicates()
        &&& self.order.len() <= self.capacity
        &&& self.lists_keys()
    }

    pub open spec fn lists_keys(self) -> bool {
        forall|n: u64| #[trigger] self.entries.dom().contains(n) <==> self.order.contains(n)
    }

    /// Without the oldest entry, if the map is full.
    pub open spec fn with_room(self) -> CoverageView {
        if self.order.len() >= self.capacity {
            CoverageView {
                order: self.order.skip(1),
                entries: self.entries.remove(self.order[0]),
                ..self
            }
        } else {
            self
        }
    }

    /// A key that is there keeps its place; another takes the newest place.
    pub open spec fn recorded(self, n: u64, list: Seq<FragmentCoverage>) -> CoverageView {
        if self.entries.dom().contains(n) {
            CoverageView { entries: self.entries.insert(n, list), ..self }
        } else {
            let s = self.with_room();
            CoverageView { order: s.order.push(n), entries: s.entries.insert(n, list), ..s }
        }
    }

    pub open spec fn without(self, n: u64) -> CoverageView {
        CoverageView {
            order: cache::without(self.order, n),
            entries: self.entries.remove(n),
            ..self
        }
    }

    /// Without the Cdf53 coverage of a tile.
    pub open spec fn without_refinement(self, tile_x: u8, tile_y: u8) -> CoverageView {
        let keep = not_refining(self.entries, tile_x, tile_y);
        CoverageView {
            order: self.order.filter(keep),
            entries: self.entries.restrict(Set::new(keep)),
            ..self
        }
    }

    /// Everything that is carried, by age of the entry.
    pub open spec fn all(self, order: Seq<u64>) -> Seq<FragmentCoverage>
        decreases order.len(),
    {
        if order.len() == 0 {
            Seq::empty()
        } else {
            self.all(order.drop_last()) + self.entries[order.last()]
        }
    }
}

/// What each tile-pass in flight carries: bounded, the oldest entry gives way.
/// An entry that gave way is as good as an acknowledgement that never came.
pub struct FragmentCoverageMap {
    capacity: usize,
    order: VecDeque<u64>,
    entries: HashMap<u64, CoverageList>,
}

impl View for FragmentCoverageMap {
    type V = CoverageView;

    closed spec fn view(&self) -> CoverageView {
        CoverageView {
            capacity: self.capacity as nat,
            order: self.order@,
            entries: self.entries@.map_values(|l: CoverageList| l@),
        }
    }
}

/// The numbers of a well-formed map are as many as its entries.
proof fn order_counts(s: CoverageView)
    requires
        s.order.no_duplicates(),
        s.lists_keys(),
    ensures
        s.entries.dom().finite(),
        s.entries.dom().len() == s.order.len(),
{
    s.order.unique_seq_to_set();
    assert(s.entries.dom() =~= s.order.to_set());
}

/// Recording keeps the map well formed.
pub proof fn recorded_wf(s: CoverageView, n: u64, list: Seq<FragmentCoverage>)
    requires
        s.wf(),
    ensures
        s.recorded(n, list).wf(),
{
    if !s.entries.dom().contains(n) {
        let t = s.with_room();
        let r = s.recorded(n, list);
        assert forall|x: u64| #[trigger] t.entries.dom().contains(x) <==> t.order.contains(x) by {
            if s.order.len() >= s.capacity {
                if t.order.contains(x) {
                    let i = choose|i: int| 0 <= i < t.order.len() && t.order[i] == x;
                    assert(s.order[i + 1] == x);
                    assert(s.order.contains(x));
                }
                if t.entries.dom().contains(x) {
                    let i = choose|i: int| 0 <= i < s.order.len() && s.order[i] == x;
                    assert(t.order[i - 1] == x);
                }
            }
        }
        assert(!t.entries.dom().contains(n));
        assert(!t.order.contains(n));
        assert forall|x: u64| #[trigger] r.entries.dom().contains(x) <==> r.order.contains(x) by {
            assert(r.order[t.order.len() as int] == n);
            if t.order.contains(x) {
                let i = choose|i: int| 0 <= i < t.order.len() && t.order[i] == x;
                assert(r.order[i] == x);
            }
            if r.order.contains(x) && x != n {
                let i = choose|i: int| 0 <= i < r.order.len() && r.order[i] == x;
                assert(t.order[i] == x);
            }
        }
        assert forall|i: int, j: int| 0 <= i < j < r.order.len() implies r.order[i]
            != r.order[j] by {
            assert(t.order.contains(t.order[i]));
        }
    }
}

/// A filter keeps the numbers distinct, and keeps exactly those it is for.
proof fn filtered_order(s: Seq<u64>, keep: spec_fn(u64) -> bool)
    requires
        s.no_duplicates(),
    ensures
        s.filter(keep).no_duplicates(),
        s.filter(keep).len() <= s.len(),
        forall|x: u64| #[trigger] s.filter(keep).contains(x) <==> s.contains(x) && keep(x),
    decreases s.len(),
{
    if s.len() == 0 {
        assert(s =~= Seq::empty());
        seqs::filter_empty(keep);
    } else {
        let init = s.drop_last();
        let last = s.last();
        assert(init.no_duplicates()) by {
            assert forall|i: int, j: int| 0 <= i < j < init.len() implies init[i] != init[j] by {
                assert(s[i] != s[j]);
            }
        }
        filtered_order(init, keep);
        seqs::filter_last(s, keep);
        let f = init.filter(keep);
        assert(!init.contains(last)) by {
            if init.contains(last) {
                let i = choose|i: int| 0 <= i < init.len() && init[i] == last;
                assert(s[i] != s[s.len() - 1]);
            }
        }
        assert forall|x: u64| s.contains(x) <==> init.contains(x) || x == last by {
            if init.contains(x) {
                let i = choose|i: int| 0 <= i < init.len() && init[i] == x;
                assert(s[i] == x);
            }
            assert(s[s.len() - 1] == last);
            if s.contains(x) && x != last {
                let i = choose|i: int| 0 <= i < s.len() && s[i] == x;
                assert(init[i] == x);
            }
        }
        if keep(last) {
            let g = f.push(last);
            assert forall|x: u64| g.contains(x) <==> f.contains(x) || x == last by {
                if f.contains(x) {
                    let i = choose|i: int| 0 <= i < f.len() && f[i] == x;
                    assert(g[i] == x);
                }
                assert(g[f.len() as int] == last);
                if g.contains(x) && x != last {
                    let i = choose|i: int| 0 <= i < g.len() && g[i] == x;
                    assert(f[i] == x);
                }
            }
            assert forall|i: int, j: int| 0 <= i < j < g.len() implies g[i] != g[j] by {
                assert(f.contains(f[i]));
            }
        }
    }
}

impl FragmentCoverageMap {
    /// The map's invariant.
    pub open spec fn wf(&self) -> bool {
        self@.wf()
    }

    /// An empty map.
    pub fn new(capacity: usize) -> (m: Self)
        requires
            capacity > 0,
        ensures
            m.wf(),
            m@ == (CoverageView {
                capacity: capacity as nat,
                order: Seq::empty(),
                entries: Map::empty(),
            }),
    {
        let m = FragmentCoverageMap {
            capacity,
            order: VecDeque::new(),
            entries: HashMap::new(),
        };
        assert(m@.entries =~= Map::empty());
        m
    }

    /// Notes what a tile-pass that was just emitted carries.
    pub fn record(&mut self, key: CoverageKey, coverage: CoverageList)
        requires
            old(self).wf(),
        ensures
            final(self).wf(),
            final(self)@ == old(self)@.recorded(number_of(key), coverage@),
    {
        let n: u64 = number(key);
        let ghost list = coverage@;
        proof {
            recorded_wf(self@, n, list);
            order_counts(self@);
            assert(self@.entries.dom() =~= self.entries@.dom());
        }
        if self.entries.contains_key(&n) {
            let _ = self.entries.insert(n, coverage);
            assert(self@ =~= old(self)@.recorded(n, list));
            return;
        }
        if self.entries.len() >= self.capacity {
            let oldest: u64 = self.order.pop_front().unwrap();
            let _ = self.entries.remove(&oldest);
        }
        assert(self@ =~= old(self)@.with_room());
        self.order.push_back(n);
        let _ = self.entries.insert(n, coverage);
        assert(self@ =~= old(self)@.recorded(n, list));
    }

    /// Takes out what a tile-pass carries; nothing if its entry gave way or
    /// was taken already.
    pub fn take(&mut self, key: CoverageKey) -> (r: Option<CoverageList>)
        requires
            old(self).wf(),
        ensures
            final(self).wf(),
            match r {
                Some(list) => old(self)@.entries.dom().contains(number_of(key)) && list@
                    == old(self)@.entries[number_of(key)] && final(self)@ == old(self)@.without(
                    number_of(key),
                ),
                None => !old(self)@.entries.dom().contains(number_of(key)) && final(self)@
                    == old(self)@,
            },
    {
        let n: u64 = number(key);
        let ghost s = self@;
        proof {
            filtered_order(s.order, cache::other_than(n));
        }
        match self.entries.remove(&n) {
            None => {
                assert(self@ =~= s);
                None
            },
            Some(list) => {
                self.forget(n);
                assert(self@ =~= s.without(n));
                Some(list)
            },
        }
    }

    /// Takes a number out of the order.
    fn forget(&mut self, k: u64)
        ensures
            final(self).order@ == cache::without(old(self).order@, k),
            final(self).entries == old(self).entries,
            final(self).capacity == old(self).capacity,
    {
        let n: usize = self.order.len();
        let ghost all = self.order@;
        let mut i: usize = 0;
        proof {
            seqs::filter_empty(cache::other_than(k));
            assert(all.take(0) =~= Seq::empty());
            assert(all.skip(0) + all.take(0).filter(cache::other_than(k)) =~= all);
        }
        while i < n
            invariant
                i <= n,
                n == all.len(),
                self.order@ == all.skip(i as int) + all.take(i as int).filter(
                    cache::other_than(k),
                ),
                self.entries == old(self).entries,
                self.capacity == old(self).capacity,
            decreases n - i,
        {
            let ghost kept = all.take(i as int).filter(cache::other_than(k));
            let w: u64 = self.order.pop_front().unwrap();
            assert(w == all[i as int]);
            assert(self.order@ =~= all.skip(i + 1) + kept);
            if w != k {
                self.order.push_back(w);
            }
            proof {
                let upto = all.take(i + 1);
                seqs::filter_last(upto, cache::other_than(k));
                assert(upto.drop_last() =~= all.take(i as int));
                assert(self.order@ =~= all.skip(i + 1) + upto.filter(cache::other_than(k)));
            }
            i = i + 1;
        }
        assert(all.take(n as int) =~= all);
        assert(self.order@ =~= all.filter(cache::other_than(k)));
    }

    /// Drops every Cdf53 entry of a tile, of any frame and pass: its
    /// refinement was superseded.  Entries of other codecs stay, since their
    /// acknowledgements have effects of their own.
    pub fn drop_cdf53_for_tile(&mut self, tile_x: u8, tile_y: u8)
        requires
            old(self).wf(),
        ensures
            final(self).wf(),
            final(self)@ == old(self)@.without_refinement(tile_x, tile_y),
    {
        let n: usize = self.order.len();
        let ghost s = self@;
        let ghost keep = not_refining(s.entries, tile_x, tile_y);
        let ghost all = self.order@;
        let mut i: usize = 0;
        proof {
            filtered_order(s.order, keep);
            seqs::filter_empty(keep);
            assert(all.take(0) =~= Seq::empty());
            assert(all.skip(0) + all.take(0).filter(keep) =~= all);
            assert(s.entries.dom() =~= self.entries@.dom());
        }
        let ghost start = self.entries@;
        while i < n
            invariant
                i <= n,
                n == all.len(),
                all == s.order,
                s.wf(),
                s.entries == start.map_values(|l: CoverageList| l@),
                keep == not_refining(s.entries, tile_x, tile_y),
                self.order@ == all.skip(i as int) + all.take(i as int).filter(keep),
                self.capacity == old(self).capacity,
                forall|x: u64| #[trigger]
                    self.entries@.dom().contains(x) <==> start.dom().contains(x) && !(all.take(
                        i as int,
                    ).contains(x) && !keep(x)),
                forall|x: u64| #[trigger]
                    self.entries@.dom().contains(x) ==> self.entries@[x] == start[x],
            decreases n - i,
        {
            let ghost kept = all.take(i as int).filter(keep);
            let ghost before = self.entries@;
            let w: u64 = self.order.pop_front().unwrap();
            proof {
                assert(w == all[i as int]);
                assert(self.order@ =~= all.skip(i + 1) + kept);
                assert(all.contains(w));
                assert(s.entries.dom().contains(w));
                assert(!all.take(i as int).contains(w)) by {
                    if all.take(i as int).contains(w) {
                        let j = choose|j: int| 0 <= j < i && all.take(i as int)[j] == w;
                        assert(all[j] == w);
                    }
                }
                assert(self.entries@.dom().contains(w));
            }
            let key = EmitKey::unpack(w);
            let refines: bool = key.tile_x == tile_x && key.tile_y == tile_y
                && match self.entries.get(&w) {
                Some(list) => any_cdf53(list.as_slice()),
                None => false,
            };
            assert(refines == !keep(w));
            if refines {
                let _ = self.entries.remove(&w);
            } else {
                self.order.push_back(w);
            }
            proof {
                let upto = all.take(i + 1);
                seqs::filter_last(upto, keep);
                assert(upto.drop_last() =~= all.take(i as int));
                assert(self.order@ =~= all.skip(i + 1) + upto.filter(keep));
                assert forall|x: u64|
                    upto.contains(x) <==> all.take(i as int).contains(x) || x == w by {
                    if all.take(i as int).contains(x) {
                        let j = choose|j: int| 0 <= j < i && all.take(i as int)[j] == x;
                        assert(upto[j] == x);
                    }
                    assert(upto[i as int] == w);
                    if upto.contains(x) && x != w {
                        let j = choose|j: int| 0 <= j < upto.len() && upto[j] == x;
                        assert(all.take(i as int)[j] == x);
                    }
                }
            }
            i = i + 1;
        }
        assert(all.take(n as int) =~= all);
        assert(self.order@ =~= all.filter(keep));
        assert(self@ =~= s.without_refinement(tile_x, tile_y));
    }

    /// Number of entries.
    pub fn len(&self) -> (n: usize)
        requires
            self.wf(),
        ensures
            n == self@.order.len(),
            n == self@.entries.dom().len(),
    {
        proof {
            order_counts(self@);
            assert(self@.entries.dom() =~= self.entries@.dom());
        }
        self.entries.len()
    }

    /// Everything in flight, for diagnosis.
    pub fn snapshot(&self) -> (out: Vec<FragmentCoverage>)
        requires
            self.wf(),
        ensures
            out@ == self@.all(self@.order),
    {
        let mut out: Vec<FragmentCoverage> = Vec::new();
        let n: usize = self.order.len();
        let mut i: usize = 0;
        assert(self@.order.take(0) =~= Seq::empty());
        while i < n
            invariant
                i <= n,
                n == self@.order.len(),
                n == self.order@.len(),
                self.wf(),
                out@ == self@.all(self@.order.take(i as int)),
            decreases n - i,
        {
            let w: u64 = self.order[i];
            proof {
                assert(self@.order.contains(w));
                assert(self@.entries.dom().contains(w));
                assert(self@.order.take(i + 1).drop_last() =~= self@.order.take(i as int));
            }
            if let Some(list) = self.entries.get(&w) {
                push_coverage(&mut out, list.as_slice());
            }
            i = i + 1;
        }
        assert(self@.order.take(n as int) =~= self@.order);
        out
    }
}

/// Appends items.
fn push_coverage(out: &mut Vec<FragmentCoverage>, items: &[FragmentCoverage])
    ensures
        final(out)@ == old(out)@ + items@,
{
    let mut i: usize = 0;
    assert(out@ =~= old(out)@ + items@.take(0));
    while i < items.len()
        invariant
            i <= items@.len(),
            out@ == old(out)@ + items@.take(i as int),
        decreases items@.len() - i,
    {
        out.push(items[i]);
        i = i + 1;
        assert(out@ =~= old(out)@ + items@.take(i as int));
    }
    assert(items@.take(items@.len() as int) =~= items@);
}

/// Whether some item is a Cdf53 pass.
fn any_cdf53(items: &[FragmentCoverage]) -> (b: bool)
    ensures
        b == has_cdf53(items@),
{
    let mut i: usize = 0;
    while i < items.len()
        invariant
            i <= items@.len(),
            forall|j: int| 0 <= j < i ==> (#[trigger] items@[j]).codec != Codec::Cdf53,
        decreases items@.len() - i,
    {
        if items[i].codec == Codec::Cdf53 {
            assert(items@[i as int].codec == Codec::Cdf53);
            return true;
        }
        i = i + 1;
    }
    false
}

/// Distinct keys have distinct entries.
pub proof fn keys_do_not_collide(a: CoverageKey, b: CoverageKey)
    ensures
        number_of(a) == number_of(b) <==> a == b,
{
    let ka = EmitKey { frame_seq: a.0, tile_x: a.1, tile_y: a.2, pass_idx: a.3 };
    let kb = EmitKey { frame_seq: b.0, tile_x: b.1, tile_y: b.2, pass_idx: b.3 };
    crate::reliable_emitter::key_packing_round_trip(ka, ka.packed());
    crate::reliable_emitter::key_packing_round_trip(kb, kb.packed());
}

/// What was recorded can be taken, once.
pub proof fn recorded_is_taken_once(s: CoverageView, n: u64, list: Seq<FragmentCoverage>)
    requires
        s.wf(),
    ensures
        s.recorded(n, list).entries.dom().contains(n),
        s.recorded(n, list).entries[n] == list,
        !s.recorded(n, list).without(n).entries.dom().contains(n),
{
}

/// After the Cdf53 coverage of a tile is dropped, no Cdf53 item is found under
/// a key of that tile, and every other entry is as it was.
pub proof fn no_stale_refinement(s: CoverageView, tile_x: u8, tile_y: u8, key: CoverageKey)
    requires
        s.wf(),
    ensures
        s.without_refinement(tile_x, tile_y).wf(),
        s.without_refinement(tile_x, tile_y).entries.dom().contains(number_of(key)) <==> (
        s.entries.dom().contains(number_of(key)) && !(key.1 == tile_x && key.2 == tile_y
            && has_cdf53(s.entries[number_of(key)]))),
        s.without_refinement(tile_x, tile_y).entries.dom().contains(number_of(key)) ==>
            s.without_refinement(tile_x, tile_y).entries[number_of(key)]
            == s.entries[number_of(key)],
{
    let k = EmitKey { frame_seq: key.0, tile_x: key.1, tile_y: key.2, pass_idx: key.3 };
    crate::reliable_emitter::key_packing_round_trip(k, k.packed());
    filtered_order(s.order, not_refining(s.entries, tile_x, tile_y));
}

/// Recording puts the newest entry last; a full map gives up its oldest entry
/// for it and no other, and an entry recorded again keeps its age.
pub proof fn recording_gives_up_the_oldest(
    s: CoverageView,
    n: u64,
    list: Seq<FragmentCoverage>,
    other: u64,
)
    requires
        s.wf(),
        other != n,
    ensures
        ({
            let r = s.recorded(n, list);
            let known = s.entries.dom().contains(n);
            let full = s.order.len() == s.capacity;
            &&& r.entries.dom().contains(n) && r.entries[n] == list
            &&& r.capacity == s.capacity
            &&& known ==> r.order == s.order
            &&& !known && !full ==> r.order == s.order.push(n)
            &&& !known && full ==> r.order == s.order.skip(1).push(n)
            &&& known || !full || other != s.order[0] ==> r.entries.dom().contains(other)
                == s.entries.dom().contains(other)
            &&& !known && full && other == s.order[0] ==> !r.entries.dom().contains(other)
            &&& r.entries.dom().contains(other) ==> r.entries[other] == s.entries[other]
        }),
{
}

/// Holds of every number but `n`.
pub open spec fn all_but(n: u64) -> spec_fn(u64) -> bool {
    |x: u64| x != n
}

/// Taking an entry leaves the others, in order.
pub proof fn taking_leaves_the_others(s: CoverageView, n: u64, other: u64)
    requires
        s.wf(),
        other != n,
    ensures
        ({
            let r = s.without(n);
            &&& !r.entries.dom().contains(n) && !r.order.contains(n)
            &&& r.entries.dom().contains(other) == s.entries.dom().contains(other)
            &&& r.entries.dom().contains(other) ==> r.entries[other] == s.entries[other]
            &&& r.order.contains(other) == s.order.contains(other)
            &&& r.order == s.order.filter(all_but(n))
            &&& r.capacity == s.capacity
        }),
{
    filtered_order(s.order, cache::other_than(n));
    seqs::filter_agrees(s.order, cache::other_than(n), all_but(n));
}

/// A snapshot lists what every entry covers, entry by entry.
pub proof fn a_snapshot_lists_every_entry(s: CoverageView, a: Seq<u64>, b: Seq<u64>, n: u64)
    ensures
        s.all(a + b) == s.all(a) + s.all(b),
        s.all(seq![n]) == s.entries[n],
        s.all(Seq::empty()) == Seq::<FragmentCoverage>::empty(),
    decreases b.len(),
{
    reveal_with_fuel(CoverageView::all, 2);
    assert(seq![n].drop_last() =~= Seq::empty());
    assert(seq![n].last() == n);
    assert(Seq::<FragmentCoverage>::empty() + s.entries[n] =~= s.entries[n]);
    if b.len() == 0 {
        assert(a + b =~= a);
        assert(s.all(a) + s.all(b) =~= s.all(a));
    } else {
        assert((a + b).drop_last() =~= a + b.drop_last());
        assert((a + b).last() == b.last());
        a_snapshot_lists_every_entry(s, a, b.drop_last(), n);
        assert(s.all(a + b) =~= s.all(a) + s.all(b));
    }
}

/// Coverage of refinement is told by its codec.
pub proof fn refinement_is_told_by_its_codec(c: FragmentCoverage, list: Seq<FragmentCoverage>)
    ensures
        has_cdf53(seq![c]) <==> c.codec == Codec::Cdf53,
        !has_cdf53(Seq::empty()),
        has_cdf53(list.push(c)) <==> has_cdf53(list) || c.codec == Codec::Cdf53,
{
    assert(seq![c][0] == c);
    let more = list.push(c);
    assert(more[list.len() as int] == c);
    if has_cdf53(list) {
        let i = choose|i: int| 0 <= i < list.len() && (#[trigger] list[i]).codec == Codec::Cdf53;
        assert(more[i] == list[i]);
    }
    if has_cdf53(more) {
        let i = choose|i: int| 0 <= i < more.len() && (#[trigger] more[i]).codec == Codec::Cdf53;
        if i < list.len() {
            assert(list[i] == more[i]);
        }
    }
}

} // verus!
