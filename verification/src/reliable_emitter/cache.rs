//! Per-session retransmission cache.
//!
//! Holds emitted fragments by their tile-pass.  An entry lives until it is
//! acknowledged, its tile is superseded, or the session ends: a tile-pass that
//! was not acknowledged is never dropped silently.
use crate::maps::key_list;
use crate::reliable_emitter::lists::{FragmentList, WireSeqList};
use crate::reliable_emitter::{EmitKey, CACHE_CAPACITY};
use crate::seqs;
use crate::time::Instant;
use lru::LruCache;
use std::collections::hash_map::Entry;
use std::collections::HashMap;
use std::num::NonZeroUsize;
use vstd::prelude::*;

verus! {

broadcast use {vstd::std_specs::hash::group_hash_axioms, vstd::slice::group_slice_axioms};

#[verifier::external_type_specification]
#[verifier::external_body]
#[verifier::reject_recursive_types(K)]
#[verifier::reject_recursive_types(V)]
#[verifier::reject_recursive_types(S)]
pub struct ExLruCache<K, V, S>(lru::LruCache<K, V, S>);

#[verifier::external_type_specification]
#[verifier::external_body]
pub struct ExLruHasher(lru::DefaultHasher);

/// The keys that an LRU cache holds, most recently used first.
pub uninterp spec fn lru_keys(c: LruCache<u64, ()>) -> Seq<u64>;

/// The number of keys that an LRU cache was made for.
pub uninterp spec fn lru_capacity(c: LruCache<u64, ()>) -> nat;

/// Every key but `k`.
pub open spec fn other_than(k: u64) -> spec_fn(u64) -> bool {
    |x: u64| x != k
}

/// The keys other than `k`, in order.
pub open spec fn without(keys: Seq<u64>, k: u64) -> Seq<u64> {
    keys.filter(other_than(k))
}

/// The keys after `k` was put into a cache of the given capacity: it comes
/// first, and a full cache loses its least recently used key.
pub open spec fn after_put(keys: Seq<u64>, k: u64, capacity: nat) -> Seq<u64> {
    if keys.contains(k) {
        seq![k] + without(keys, k)
    } else if keys.len() == capacity {
        seq![k] + keys.drop_last()
    } else {
        seq![k] + keys
    }
}

/// The keys after `k` was looked up: one that is held comes first.
pub open spec fn after_use(keys: Seq<u64>, k: u64) -> Seq<u64> {
    if keys.contains(k) {
        seq![k] + without(keys, k)
    } else {
        keys
    }
}

/// `LruCache::new`: an empty cache of the given capacity.
#[verifier::external_body]
fn lru_new(capacity: usize) -> (c: LruCache<u64, ()>)
    requires
        capacity > 0,
    ensures
        lru_keys(c) == Seq::<u64>::empty(),
        lru_capacity(c) == capacity,
{
    LruCache::new(NonZeroUsize::new(capacity).unwrap())
}

/// `LruCache::put`: the key becomes the most recently used one; if it is new
/// and the cache is full, the least recently used key is dropped.
#[verifier::external_body]
fn lru_put(c: &mut LruCache<u64, ()>, k: u64)
    ensures
        lru_keys(*final(c)) == after_put(lru_keys(*old(c)), k, lru_capacity(*old(c))),
        lru_capacity(*final(c)) == lru_capacity(*old(c)),
{
    c.put(k, ());
}

/// `LruCache::get`: a key that is held becomes the most recently used one.
#[verifier::external_body]
fn lru_touch(c: &mut LruCache<u64, ()>, k: u64)
    ensures
        lru_keys(*final(c)) == after_use(lru_keys(*old(c)), k),
        lru_capacity(*final(c)) == lru_capacity(*old(c)),
{
    let _ = c.get(&k);
}

/// `LruCache::pop`: removes the key, if it is held.
#[verifier::external_body]
fn lru_pop(c: &mut LruCache<u64, ()>, k: u64)
    ensures
        lru_keys(*final(c)) == without(lru_keys(*old(c)), k),
        lru_capacity(*final(c)) == lru_capacity(*old(c)),
{
    let _ = c.pop(&k);
}

/// The probe cluster that a tile-pass was sent for.
#[derive(Debug, Clone, Copy, PartialEq, Eq, Structural)]
pub struct ProbeTag {
    /// The cluster's number, echoed to the estimator.
    pub id: i32,
    /// The estimator discards the cluster if fewer packets are acknowledged.
    pub min_probes: i64,
    /// The estimator discards the cluster if fewer bytes are acknowledged.
    pub min_bytes: i64,
    /// Bytes sent for the cluster before this packet.
    pub bytes_sent_before: i64,
}

/// One tile-pass that was sent and not acknowledged.
#[derive(Debug)]
pub struct CacheEntry {
    pub fragments: FragmentList,
    pub wire_seqs: WireSeqList,
    /// When the work became available to the scheduler; retransmission does
    /// not change it.
    pub queued_at: Instant,
    pub first_sent_at: Instant,
    pub last_sent_at: Instant,
    pub attempts: u8,
    pub rto_deadline: Instant,
    pub probe: Option<ProbeTag>,
}

/// What a [`CacheEntry`] holds.
#[verifier::ext_equal]
pub struct EntryView {
    pub fragments: Seq<Seq<u8>>,
    pub wire_seqs: Seq<u32>,
    pub queued_at: Instant,
    pub first_sent_at: Instant,
    pub last_sent_at: Instant,
    pub attempts: u8,
    pub rto_deadline: Instant,
    pub probe: Option<ProbeTag>,
}

impl View for CacheEntry {
    type V = EntryView;

    open spec fn view(&self) -> EntryView {
        EntryView {
            fragments: self.fragments@,
            wire_seqs: self.wire_seqs@,
            queued_at: self.queued_at,
            first_sent_at: self.first_sent_at,
            last_sent_at: self.last_sent_at,
            attempts: self.attempts,
            rto_deadline: self.rto_deadline,
            probe: self.probe,
        }
    }
}

#[derive(Debug, Clone, Copy)]
pub struct CacheStats {
    pub lru_eviction: u64,
}

impl Default for CacheStats {
    fn default() -> (s: Self)
        ensures
            s.lru_eviction == 0,
    {
        CacheStats { lru_eviction: 0 }
    }
}

/// Total length of the fragments.
pub open spec fn bytes_of(fragments: Seq<Seq<u8>>) -> nat
    decreases fragments.len(),
{
    if fragments.len() == 0 {
        0
    } else {
        bytes_of(fragments.drop_last()) + fragments.last().len()
    }
}

/// Total length of all fragments of all entries.
pub open spec fn outstanding(m: Map<u64, EntryView>) -> nat
    decreases m.dom().len(),
    when m.dom().finite()
{
    if m.dom().len() == 0 {
        0
    } else {
        let k = m.dom().choose();
        bytes_of(m[k].fragments) + outstanding(m.remove(k))
    }
}

/// Any entry can be counted first.
pub proof fn outstanding_any(m: Map<u64, EntryView>, k: u64)
    requires
        m.dom().finite(),
        m.dom().contains(k),
    ensures
        outstanding(m) == bytes_of(m[k].fragments) + outstanding(m.remove(k)),
    decreases m.dom().len(),
{
    assert(m.dom().len() > 0);
    let c = m.dom().choose();
    if c != k {
        outstanding_any(m.remove(c), k);
        outstanding_any(m.remove(k), c);
        assert(m.remove(c).remove(k) =~= m.remove(k).remove(c));
    }
}

/// The entries of one session.
pub struct RetransmitCache {
    entries: HashMap<u64, CacheEntry>,
    lru: LruCache<u64, ()>,
    pub stats: CacheStats,
}

impl View for RetransmitCache {
    type V = Map<u64, EntryView>;

    /// The entries by the number of their key.
    closed spec fn view(&self) -> Map<u64, EntryView> {
        self.entries@.map_values(|e: CacheEntry| e@)
    }
}

/// The map without the entries of a tile.
pub open spec fn without_tile(m: Map<u64, EntryView>, tile_x: u8, tile_y: u8) -> Map<
    u64,
    EntryView,
> {
    m.remove_keys(Set::new(|n: u64| EmitKey::unpacked(n).is_tile(tile_x, tile_y)))
}

/// Every key but those of a tile.
pub open spec fn not_of_tile(tile_x: u8, tile_y: u8) -> spec_fn(u64) -> bool {
    |n: u64| !EmitKey::unpacked(n).is_tile(tile_x, tile_y)
}

/// Every key but those of a tile that are among `done`.
spec fn not_done(tile_x: u8, tile_y: u8, done: Seq<u64>) -> spec_fn(u64) -> bool {
    |n: u64| !(EmitKey::unpacked(n).is_tile(tile_x, tile_y) && done.contains(n))
}

impl RetransmitCache {
    /// The keys most recently used first.
    pub closed spec fn recent(&self) -> Seq<u64> {
        lru_keys(self.lru)
    }

    pub closed spec fn counters(&self) -> CacheStats {
        self.stats
    }

    /// Every entry is under the number of a key, and only cached keys are
    /// tracked by recency of use.
    pub closed spec fn wf(&self) -> bool {
        &&& lru_capacity(self.lru) == CACHE_CAPACITY
        &&& forall|n: u64| #[trigger]
            self.entries@.dom().contains(n) ==> n < 0x100_0000_0000_0000
        &&& forall|i: int|
            0 <= i < self.recent().len() ==> self.entries@.dom().contains(
                #[trigger] self.recent()[i],
            )
    }

    pub fn new() -> (c: Self)
        ensures
            c.wf(),
            c@ == Map::<u64, EntryView>::empty(),
            c.recent() == Seq::<u64>::empty(),
            c.counters().lru_eviction == 0,
    {
        let c = RetransmitCache {
            entries: HashMap::new(),
            lru: lru_new(CACHE_CAPACITY),
            stats: CacheStats::default(),
        };
        assert(c@ =~= Map::<u64, EntryView>::empty());
        c
    }

    /// Number of entries.
    pub fn len(&self) -> (n: usize)
        ensures
            n == self@.dom().len(),
            self@.dom().finite(),
    {
        assert(self@.dom() =~= self.entries@.dom());
        self.entries.len()
    }

    pub fn is_empty(&self) -> (b: bool)
        ensures
            b == (self@.dom().len() == 0),
    {
        assert(self@.dom() =~= self.entries@.dom());
        self.entries.len() == 0
    }

    /// Bytes sent and not acknowledged; their number must fit a `usize`.
    pub fn bytes_outstanding(&self) -> (n: usize)
        requires
            outstanding(self@) <= usize::MAX,
        ensures
            n == outstanding(self@),
    {
        let keys: Vec<u64> = key_list(&self.entries);
        let ghost m = self@;
        assert(m.dom() =~= self.entries@.dom());
        let mut total: usize = 0;
        let mut i: usize = 0;
        let ghost mut rest = m;
        while i < keys.len()
            invariant
                i <= keys@.len(),
                keys@.no_duplicates(),
                keys@.to_set() == self.entries@.dom(),
                m == self@,
                m.dom() == self.entries@.dom(),
                m.dom().finite(),
                outstanding(m) <= usize::MAX,
                rest.dom().finite(),
                rest == m.remove_keys(keys@.take(i as int).to_set()),
                total + outstanding(rest) == outstanding(m),
            decreases keys@.len() - i,
        {
            let k: u64 = keys[i];
            proof {
                assert(keys@.contains(k));
                assert(keys@.to_set().contains(k));
                assert(!keys@.take(i as int).contains(k)) by {
                    if keys@.take(i as int).contains(k) {
                        let j = choose|j: int| 0 <= j < i && keys@.take(i as int)[j] == k;
                        assert(keys@[j] == keys@[i as int]);
                    }
                }
                assert(rest.dom().contains(k));
                outstanding_any(rest, k);
            }
            match self.entries.get(&k) {
                Some(e) => {
                    assert(e@ == m[k]);
                    total = total + Self::entry_bytes(e, total);
                },
                None => {},
            }
            proof {
                let next = rest.remove(k);
                assert(keys@.take(i + 1) =~= keys@.take(i as int).push(k));
                assert(next =~= m.remove_keys(keys@.take(i + 1).to_set())) by {
                    assert forall|x: u64|
                        keys@.take(i + 1).to_set().contains(x) == (keys@.take(
                            i as int,
                        ).to_set().contains(x) || x == k) by {
                        if keys@.take(i as int).contains(x) {
                            let j = choose|j: int| 0 <= j < i && keys@.take(i as int)[j] == x;
                            assert(keys@.take(i + 1)[j] == x);
                        }
                        assert(keys@.take(i + 1)[i as int] == k);
                    }
                }
                rest = next;
            }
            i = i + 1;
        }
        proof {
            assert(keys@.take(keys@.len() as int) =~= keys@);
            assert(rest.dom() =~= Set::empty());
        }
        total
    }

    /// Total length of an entry's fragments, where it fits on top of `base`.
    fn entry_bytes(e: &CacheEntry, base: usize) -> (n: usize)
        requires
            base + bytes_of(e@.fragments) <= usize::MAX,
        ensures
            n == bytes_of(e@.fragments),
    {
        let items = e.fragments.as_slice();
        let ghost all = e@.fragments;
        let mut n: usize = 0;
        let mut i: usize = 0;
        assert(all.take(0) =~= Seq::empty());
        while i < items.len()
            invariant
                i <= items@.len(),
                all == crate::reliable_emitter::lists::contents(items@),
                n == bytes_of(all.take(i as int)),
                base + bytes_of(all) <= usize::MAX,
            decreases items@.len() - i,
        {
            proof {
                assert(all.take(i + 1).drop_last() =~= all.take(i as int));
                assert(all.take(i + 1).last() == items@[i as int]@);
                bytes_grow(all, i + 1);
            }
            n = n + items[i].len();
            i = i + 1;
        }
        assert(all.take(items@.len() as int) =~= all);
        n
    }

    /// Adds an entry, in place of one under the same key.
    pub fn insert(&mut self, key: EmitKey, entry: CacheEntry)
        requires
            old(self).wf(),
        ensures
            final(self).wf(),
            final(self)@ == old(self)@.insert(key.packed(), entry@),
            final(self).recent() == after_put(
                old(self).recent(),
                key.packed(),
                CACHE_CAPACITY as nat,
            ),
            final(self).counters() == old(self).counters(),
    {
        let n: u64 = key.pack();
        let ghost e = entry@;
        lru_put(&mut self.lru, n);
        self.entries.insert(n, entry);
        assert(self@ =~= old(self)@.insert(n, e));
        proof {
            after_put_members(old(self).recent(), n, CACHE_CAPACITY as nat);
        }
    }

    pub fn get(&self, key: &EmitKey) -> (r: Option<&CacheEntry>)
        ensures
            match r {
                Some(e) => self@.dom().contains(key.packed()) && e@ == self@[key.packed()],
                None => !self@.dom().contains(key.packed()),
            },
    {
        self.entries.get(&key.pack())
    }

    /// The entry for modification; looking it up counts as use.
    pub fn get_mut(&mut self, key: &EmitKey) -> (r: Option<&mut CacheEntry>)
        requires
            old(self).wf(),
        ensures
            final(self).wf(),
            final(self).counters() == old(self).counters(),
            final(self).recent() == after_use(old(self).recent(), key.packed()),
            match r {
                Some(e) => old(self)@.dom().contains(key.packed()) && (*e)@
                    == old(self)@[key.packed()] && final(self)@ == old(self)@.insert(
                    key.packed(),
                    (*final(e))@,
                ),
                None => !old(self)@.dom().contains(key.packed()) && final(self)@ == old(self)@
                    && final(self).recent() == old(self).recent(),
            },
    {
        let n: u64 = key.pack();
        lru_touch(&mut self.lru, n);
        proof {
            touch_members(old(self).recent(), n);
        }
        if !self.entries.contains_key(&n) {
            return None;
        }
        proof {
            let s = *self;
            assert forall|t: RetransmitCache|
                t.lru == s.lru && t.entries@ == s.entries@.insert(n, t.entries@[n]) implies
                #[trigger] t.wf() && t@ == s@.insert(n, t.entries@[n]@) && t.recent()
                == s.recent() by {
                assert(t@ =~= s@.insert(n, t.entries@[n]@));
                assert(t.recent() == s.recent());
            }
        }
        match self.entries.entry(n) {
            Entry::Occupied(o) => Some(o.into_mut()),
            Entry::Vacant(_) => None,
        }
    }

    /// Takes an entry out.
    pub fn remove(&mut self, key: &EmitKey) -> (r: Option<CacheEntry>)
        requires
            old(self).wf(),
        ensures
            final(self).wf(),
            final(self)@ == old(self)@.remove(key.packed()),
            final(self).recent() == without(old(self).recent(), key.packed()),
            final(self).counters() == old(self).counters(),
            match r {
                Some(e) => old(self)@.dom().contains(key.packed()) && e@
                    == old(self)@[key.packed()],
                None => !old(self)@.dom().contains(key.packed()),
            },
    {
        let n: u64 = key.pack();
        lru_pop(&mut self.lru, n);
        proof {
            without_members(old(self).recent(), n);
        }
        let r = self.entries.remove(&n);
        assert(self@ =~= old(self)@.remove(n));
        r
    }

    /// Drops every entry of a tile, of any frame and pass.
    pub fn cancel_for_tile(&mut self, tile_x: u8, tile_y: u8)
        requires
            old(self).wf(),
        ensures
            final(self).wf(),
            final(self)@ == without_tile(old(self)@, tile_x, tile_y),
            final(self).recent() == old(self).recent().filter(not_of_tile(tile_x, tile_y)),
            final(self).counters() == old(self).counters(),
    {
        let keys: Vec<u64> = key_list(&self.entries);
        let ghost m = self@;
        let ghost tile = Set::new(|n: u64| EmitKey::unpacked(n).is_tile(tile_x, tile_y));
        let mut i: usize = 0;
        assert(keys@.take(0).to_set() =~= Set::empty());
        assert(m.remove_keys(tile.intersect(keys@.take(0).to_set())) =~= m);
        let ghost used = self.recent();
        proof {
            seqs::filter_agrees(used, |n: u64| true, not_done(tile_x, tile_y, keys@.take(0)));
            seqs::filter_all(used, |n: u64| true);
            assert(m.dom() =~= self.entries@.dom());
            assert forall|j: int| 0 <= j < used.len() implies keys@.contains(#[trigger] used[j]) by {
                assert(keys@.to_set().contains(used[j]));
            }
        }
        while i < keys.len()
            invariant
                i <= keys@.len(),
                self.wf(),
                self.recent() == used.filter(not_done(tile_x, tile_y, keys@.take(i as int))),
                self.counters() == old(self).counters(),
                tile == Set::new(|n: u64| EmitKey::unpacked(n).is_tile(tile_x, tile_y)),
                keys@.to_set() == m.dom(),
                forall|n: u64| #[trigger] m.dom().contains(n) ==> n < 0x100_0000_0000_0000,
                self@ == m.remove_keys(tile.intersect(keys@.take(i as int).to_set())),
            decreases keys@.len() - i,
        {
            let n: u64 = keys[i];
            let key = EmitKey::unpack(n);
            let ghost before = self@;
            proof {
                assert(keys@.contains(n));
                assert(keys@.to_set().contains(n));
                crate::reliable_emitter::key_packing_round_trip(key, n);
            }
            if key.tile_x == tile_x && key.tile_y == tile_y {
                let _ = self.remove(&key);
            }
            proof {
                not_done_one_more(used, tile_x, tile_y, keys@, i as int);
                assert forall|x: u64|
                    keys@.take(i + 1).to_set().contains(x) == (keys@.take(
                        i as int,
                    ).to_set().contains(x) || x == n) by {
                    if keys@.take(i as int).contains(x) {
                        let j = choose|j: int| 0 <= j < i && keys@.take(i as int)[j] == x;
                        assert(keys@.take(i + 1)[j] == x);
                    }
                    if keys@.take(i + 1).contains(x) && x != n {
                        let upto = keys@.take(i + 1);
                        let j = choose|j: int| 0 <= j < upto.len() && upto[j] == x;
                        assert(keys@.take(i as int)[j] == x);
                    }
                    assert(keys@.take(i + 1)[i as int] == n);
                }
                assert(self@ =~= m.remove_keys(tile.intersect(keys@.take(i + 1).to_set())));
            }
            i = i + 1;
        }
        assert(keys@.take(keys@.len() as int) =~= keys@);
        assert(self@ =~= without_tile(m, tile_x, tile_y));
        proof {
            seqs::filter_agrees(used, not_done(tile_x, tile_y, keys@), not_of_tile(tile_x, tile_y));
        }
    }

    /// Drops every entry: the session is over.
    pub fn clear(&mut self)
        ensures
            final(self).wf(),
            final(self)@ == Map::<u64, EntryView>::empty(),
            final(self).recent() == Seq::<u64>::empty(),
            final(self).counters() == old(self).counters(),
    {
        self.entries.clear();
        self.lru = lru_new(CACHE_CAPACITY);
        assert(self@ =~= Map::<u64, EntryView>::empty());
    }

    /// Whether an entry of the tile is held, of any frame and pass.
    pub fn has_entries_for_tile(&self, tile_x: u8, tile_y: u8) -> (b: bool)
        ensures
            b == exists|n: u64| #[trigger]
                self@.dom().contains(n) && EmitKey::unpacked(n).is_tile(tile_x, tile_y),
    {
        let keys: Vec<u64> = key_list(&self.entries);
        assert(self@.dom() =~= self.entries@.dom());
        let mut i: usize = 0;
        while i < keys.len()
            invariant
                i <= keys@.len(),
                keys@.to_set() == self@.dom(),
                forall|j: int|
                    0 <= j < i ==> !EmitKey::unpacked(#[trigger] keys@[j]).is_tile(tile_x, tile_y),
            decreases keys@.len() - i,
        {
            let key = EmitKey::unpack(keys[i]);
            if key.tile_x == tile_x && key.tile_y == tile_y {
                proof {
                    assert(keys@.contains(keys@[i as int]));
                    assert(keys@.to_set().contains(keys@[i as int]));
                }
                return true;
            }
            i = i + 1;
        }
        proof {
            assert forall|n: u64| #[trigger]
                self@.dom().contains(n) implies !EmitKey::unpacked(n).is_tile(tile_x, tile_y) by {
                assert(keys@.to_set().contains(n));
                let j = choose|j: int| 0 <= j < keys@.len() && keys@[j] == n;
                assert(!EmitKey::unpacked(keys@[j]).is_tile(tile_x, tile_y));
            }
        }
        false
    }
}

/// One key more is done: it goes if it is the tile's.
proof fn not_done_one_more(used: Seq<u64>, tile_x: u8, tile_y: u8, keys: Seq<u64>, i: int)
    requires
        0 <= i < keys.len(),
    ensures
        used.filter(not_done(tile_x, tile_y, keys.take(i + 1))) == (if EmitKey::unpacked(
            keys[i],
        ).is_tile(tile_x, tile_y) {
            without(used.filter(not_done(tile_x, tile_y, keys.take(i))), keys[i])
        } else {
            used.filter(not_done(tile_x, tile_y, keys.take(i)))
        }),
{
    let before = not_done(tile_x, tile_y, keys.take(i));
    let after = not_done(tile_x, tile_y, keys.take(i + 1));
    assert forall|x: u64| keys.take(i + 1).contains(x) <==> keys.take(i).contains(x) || x
        == keys[i] by {
        if keys.take(i).contains(x) {
            let j = choose|j: int| 0 <= j < i && keys.take(i)[j] == x;
            assert(keys.take(i + 1)[j] == x);
        }
        assert(keys.take(i + 1)[i] == keys[i]);
        if keys.take(i + 1).contains(x) && x != keys[i] {
            let upto = keys.take(i + 1);
            let j = choose|j: int| 0 <= j < upto.len() && upto[j] == x;
            assert(keys.take(i)[j] == x);
        }
    }
    if EmitKey::unpacked(keys[i]).is_tile(tile_x, tile_y) {
        seqs::filter_twice(used, before, other_than(keys[i]), after);
    } else {
        seqs::filter_agrees(used, before, after);
    }
}

impl Default for RetransmitCache {
    fn default() -> (c: Self)
        ensures
            c.wf(),
            c@ == Map::<u64, EntryView>::empty(),
            c.recent() == Seq::<u64>::empty(),
            c.counters().lru_eviction == 0,
    {
        RetransmitCache::new()
    }
}

/// Bytes of a prefix do not exceed the bytes of all.
proof fn bytes_grow(all: Seq<Seq<u8>>, i: int)
    requires
        0 <= i <= all.len(),
    ensures
        bytes_of(all.take(i)) <= bytes_of(all),
    decreases all.len() - i,
{
    if i == all.len() {
        assert(all.take(i) =~= all);
    } else {
        bytes_grow(all, i + 1);
        assert(all.take(i + 1).drop_last() =~= all.take(i));
    }
}

/// What is left after removing a key was there before, and is another key.
proof fn without_members(keys: Seq<u64>, k: u64)
    ensures
        forall|i: int|
            0 <= i < without(keys, k).len() ==> keys.contains(#[trigger] without(keys, k)[i])
                && without(keys, k)[i] != k,
{
    assert forall|i: int| 0 <= i < without(keys, k).len() implies keys.contains(
        #[trigger] without(keys, k)[i],
    ) && without(keys, k)[i] != k by {
        crate::seqs::filter_member(keys, other_than(k), i);
    }
}

/// Touching a key brings in no key that was not there.
proof fn touch_members(keys: Seq<u64>, k: u64)
    ensures
        keys.contains(k) ==> forall|i: int|
            0 <= i < (seq![k] + without(keys, k)).len() ==> keys.contains(
                #[trigger] (seq![k] + without(keys, k))[i],
            ),
{
    without_members(keys, k);
}

/// Putting a key brings in no other key that was not there.
proof fn after_put_members(keys: Seq<u64>, k: u64, capacity: nat)
    requires
        capacity > 0,
    ensures
        forall|i: int|
            0 <= i < after_put(keys, k, capacity).len() ==> #[trigger] after_put(
                keys,
                k,
                capacity,
            )[i] == k || keys.contains(after_put(keys, k, capacity)[i]),
{
    without_members(keys, k);
    let t = after_put(keys, k, capacity);
    assert forall|i: int| 0 <= i < t.len() implies #[trigger] t[i] == k || keys.contains(t[i]) by {
        if i > 0 {
            if keys.contains(k) {
                assert(t[i] == without(keys, k)[i - 1]);
            } else if keys.len() == capacity {
                assert(t[i] == keys[i - 1]);
            } else {
                assert(t[i] == keys[i - 1]);
            }
        }
    }
}

/// Cancelling a tile keeps the entries of every other tile, and none of its
/// own.
pub proof fn cancel_keeps_other_tiles(
    m: Map<u64, EntryView>,
    tile_x: u8,
    tile_y: u8,
    key: EmitKey,
)
    ensures
        !key.is_tile(tile_x, tile_y) ==> (without_tile(m, tile_x, tile_y).dom().contains(
            key.packed(),
        ) == m.dom().contains(key.packed()) && (m.dom().contains(key.packed()) ==> without_tile(
            m,
            tile_x,
            tile_y,
        )[key.packed()] == m[key.packed()])),
        key.is_tile(tile_x, tile_y) ==> !without_tile(m, tile_x, tile_y).dom().contains(
            key.packed(),
        ),
{
    crate::reliable_emitter::key_packing_round_trip(key, 0);
}

/// Bytes add up, fragment by fragment.
pub proof fn fragment_bytes_add_up(a: Seq<Seq<u8>>, b: Seq<Seq<u8>>, f: Seq<u8>)
    ensures
        bytes_of(a + b) == bytes_of(a) + bytes_of(b),
        bytes_of(seq![f]) == f.len(),
        bytes_of(Seq::empty()) == 0,
    decreases b.len(),
{
    reveal_with_fuel(bytes_of, 2);
    assert(seq![f].drop_last() =~= Seq::empty());
    assert(seq![f].last() == f);
    if b.len() == 0 {
        assert(a + b =~= a);
    } else {
        assert((a + b).drop_last() =~= a + b.drop_last());
        assert((a + b).last() == b.last());
        fragment_bytes_add_up(a, b.drop_last(), f);
    }
}

/// The outstanding bytes are those of the fragments that are kept: an entry
/// that comes adds its own, one that goes takes them away, and an empty cache
/// has none.
pub proof fn outstanding_bytes_are_of_what_is_kept(m: Map<u64, EntryView>, k: u64, e: EntryView)
    requires
        m.dom().finite(),
        !m.dom().contains(k),
    ensures
        outstanding(Map::empty()) == 0,
        outstanding(m.insert(k, e)) == outstanding(m) + bytes_of(e.fragments),
        outstanding(m.insert(k, e).remove(k)) == outstanding(m),
{
    let n = m.insert(k, e);
    assert(n.remove(k) =~= m);
    outstanding_any(n, k);
}

} // verus!
