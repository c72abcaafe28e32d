//! A versioned slab: stable handles into a `Vec`, with reuse detection.
//!
//! Handles are versioned because some of their holders outlive the entries
//! they name.  With a bare index, a late acknowledgement for work that is long
//! gone would resolve to whatever now occupies its slot.
use vstd::prelude::*;

verus! {

/// A stable reference to a slab entry.
#[derive(Debug, Clone, Copy, PartialEq, Eq, Structural, Hash)]
pub struct Handle {
    pub index: u32,
    pub version: u32,
}

#[derive(Debug)]
struct Entry<T> {
    /// Even while vacant, odd while occupied: it goes up on insertion and on
    /// removal, so a handle taken before a removal does not match after it.
    version: u32,
    value: Option<T>,
}

/// Values under versioned handles.
#[derive(Debug)]
pub struct Slab<T> {
    entries: Vec<Entry<T>>,
    free: Vec<u32>,
    live: usize,
}

/// The slots of a slab, without their values: the version that each is at, and
/// the vacant ones in the order in which they were freed.
#[verifier::ext_equal]
pub struct SlotsView {
    pub versions: Seq<u32>,
    pub free: Seq<u32>,
}

/// The next version; it starts over behind the largest.
pub open spec fn next_version(v: u32) -> u32 {
    if v == u32::MAX {
        0
    } else {
        (v + 1) as u32
    }
}

/// The versions after every occupied slot was vacated.
pub open spec fn vacated(versions: Seq<u32>) -> Seq<u32> {
    versions.map_values(
        |v: u32|
            if v % 2 == 1 {
                next_version(v)
            } else {
                v
            },
    )
}

/// The occupied ones among the first `n` slots.
pub open spec fn occupied(versions: Seq<u32>, n: nat) -> Seq<u32>
    decreases n,
{
    if n == 0 {
        Seq::empty()
    } else if versions[n - 1] % 2 == 1 {
        occupied(versions, (n - 1) as nat).push((n - 1) as u32)
    } else {
        occupied(versions, (n - 1) as nat)
    }
}

/// What can be done to the slots.
pub enum SlabOp {
    Insert,
    Remove(Handle),
    Clear,
}

impl SlotsView {
    pub open spec fn empty() -> SlotsView {
        SlotsView { versions: Seq::empty(), free: Seq::empty() }
    }

    /// Only vacant slots are listed as free, each once.
    pub open spec fn wf(self) -> bool {
        &&& self.free.no_duplicates()
        &&& forall|k: int|
            0 <= k < self.free.len() ==> (#[trigger] self.free[k]) < self.versions.len()
                && self.versions[self.free[k] as int] % 2 == 0
    }

    /// The handle names a value.
    pub open spec fn is_live(self, h: Handle) -> bool {
        h.index < self.versions.len() && self.versions[h.index as int] == h.version && h.version % 2
            == 1
    }

    /// The handle that the next value gets: that of the slot freed last, in its
    /// next version, or of a new slot.
    pub open spec fn next_handle(self) -> Handle {
        if self.free.len() > 0 {
            Handle {
                index: self.free.last(),
                version: next_version(self.versions[self.free.last() as int]),
            }
        } else {
            Handle { index: self.versions.len() as u32, version: 1 }
        }
    }

    pub open spec fn inserted(self) -> SlotsView {
        if self.free.len() > 0 {
            SlotsView {
                versions: self.versions.update(
                    self.free.last() as int,
                    next_version(self.versions[self.free.last() as int]),
                ),
                free: self.free.drop_last(),
            }
        } else {
            SlotsView { versions: self.versions.push(1), ..self }
        }
    }

    /// A live handle vacates its slot; another does nothing.
    pub open spec fn removed(self, h: Handle) -> SlotsView {
        if self.is_live(h) {
            SlotsView {
                versions: self.versions.update(h.index as int, next_version(h.version)),
                free: self.free.push(h.index),
            }
        } else {
            self
        }
    }

    pub open spec fn cleared(self) -> SlotsView {
        SlotsView {
            versions: vacated(self.versions),
            free: self.free + occupied(self.versions, self.versions.len()),
        }
    }

    pub open spec fn step(self, op: SlabOp) -> SlotsView {
        match op {
            SlabOp::Insert => self.inserted(),
            SlabOp::Remove(h) => self.removed(h),
            SlabOp::Clear => self.cleared(),
        }
    }

    pub open spec fn after(self, ops: Seq<SlabOp>) -> SlotsView
        decreases ops.len(),
    {
        if ops.len() == 0 {
            self
        } else {
            self.after(ops.drop_last()).step(ops.last())
        }
    }

    /// The slots never outnumber the handles' indices in the course of `ops`.
    pub open spec fn fits(self, ops: Seq<SlabOp>) -> bool
        decreases ops.len(),
    {
        &&& self.after(ops).versions.len() <= 0x1_0000_0000
        &&& ops.len() > 0 ==> self.fits(ops.drop_last())
    }

    /// How often slot `index` changes hands in the course of `ops`.
    pub open spec fn changes(self, ops: Seq<SlabOp>, index: u32) -> nat
        decreases ops.len(),
    {
        if ops.len() == 0 {
            0
        } else {
            let before = self.after(ops.drop_last());
            self.changes(ops.drop_last(), index) + (if index < before.versions.len()
                && before.step(ops.last()).versions[index as int] != before.versions[index as int] {
                1nat
            } else {
                0nat
            })
        }
    }

    /// The handle was given out by the slot at some time.
    pub open spec fn was_given(self, h: Handle) -> bool {
        h.index < self.versions.len() && h.version <= self.versions[h.index as int] && h.version % 2
            == 1
    }
}

impl<T> View for Slab<T> {
    type V = Map<Handle, T>;

    /// What each live handle names.
    closed spec fn view(&self) -> Map<Handle, T> {
        Map::new(
            |h: Handle| self.names(h),
            |h: Handle| self.entries@[h.index as int].value->0,
        )
    }
}

impl<T> Slab<T> {
    closed spec fn names(&self, h: Handle) -> bool {
        &&& h.index < self.entries@.len()
        &&& self.entries@[h.index as int].version == h.version
        &&& self.entries@[h.index as int].value is Some
    }

    /// The slots, without their values.
    pub closed spec fn layout(&self) -> SlotsView {
        SlotsView { versions: self.entries@.map_values(|e: Entry<T>| e.version), free: self.free@ }
    }

    /// Number of slots ever made.
    pub open spec fn slots(&self) -> nat {
        self.layout().versions.len()
    }

    /// The version that slot `index` is at.
    pub open spec fn version(&self, index: u32) -> u32 {
        self.layout().versions[index as int]
    }

    /// The slab's invariant: the live handles are those that the slots say, and
    /// every slot is either occupied or free.
    pub open spec fn wf(&self) -> bool {
        &&& self@.dom().finite()
        &&& self.layout().wf()
        &&& forall|h: Handle| #[trigger] self@.dom().contains(h) <==> self.layout().is_live(h)
        &&& self.layout().free.len() + self@.dom().len() == self.slots()
        &&& self.slots() <= 0x1_0000_0000
        &&& self.counts()
    }

    /// What is stored agrees with itself.
    pub closed spec fn counts(&self) -> bool {
        &&& self@.dom().len() == self.live
        &&& forall|i: int|
            0 <= i < self.entries@.len() ==> ((#[trigger] self.entries@[i]).value is Some
                <==> self.entries@[i].version % 2 == 1)
    }

    pub fn new() -> (s: Self)
        ensures
            s.wf(),
            s@ == Map::<Handle, T>::empty(),
            s.layout() == SlotsView::empty(),
    {
        let s = Slab { entries: Vec::new(), free: Vec::new(), live: 0 };
        assert(s@ =~= Map::<Handle, T>::empty());
        assert(s.layout() =~= SlotsView::empty());
        s
    }

    /// Stores `value` in the slot that was freed last, or in a new one.
    pub fn insert(&mut self, value: T) -> (h: Handle)
        requires
            old(self).wf(),
            old(self)@.dom().len() <= u32::MAX,
            old(self)@.dom().len() < usize::MAX,
        ensures
            final(self).wf(),
            h == old(self).layout().next_handle(),
            !old(self)@.dom().contains(h),
            final(self)@ == old(self)@.insert(h, value),
            final(self)@.dom().len() == old(self)@.dom().len() + 1,
            final(self).layout() == old(self).layout().inserted(),
    {
        self.live = self.live + 1;
        match self.free.pop() {
            Some(index) => {
                let i: usize = index as usize;
                assert(old(self).layout().free.last() == index);
                assert(old(self).layout().versions[i as int] == old(self).entries@[i as int].version);
                let version: u32 = self.entries[i].version.wrapping_add(1);
                self.entries.set(i, Entry { version, value: Some(value) });
                let h = Handle { index, version };
                assert(self@ =~= old(self)@.insert(h, value));
                assert(self.layout() =~= old(self).layout().inserted());
                proof {
                    live_after_insert(old(self).layout());
                    inserted_wf(old(self).layout());
                }
                h
            },
            None => {
                let index: u32 = self.entries.len() as u32;
                self.entries.push(Entry { version: 1, value: Some(value) });
                let h = Handle { index, version: 1 };
                assert(self@ =~= old(self)@.insert(h, value));
                assert(self.layout() =~= old(self).layout().inserted());
                proof {
                    live_after_insert(old(self).layout());
                    inserted_wf(old(self).layout());
                }
                h
            },
        }
    }

    pub fn get(&self, h: Handle) -> (r: Option<&T>)
        ensures
            match r {
                Some(v) => self@.dom().contains(h) && *v == self@[h],
                None => !self@.dom().contains(h),
            },
    {
        if h.index as usize >= self.entries.len() {
            return None;
        }
        let e = &self.entries[h.index as usize];
        if e.version != h.version {
            return None;
        }
        e.value.as_ref()
    }

    pub fn get_mut(&mut self, h: Handle) -> (r: Option<&mut T>)
        requires
            old(self).wf(),
        ensures
            final(self).wf(),
            final(self).layout() == old(self).layout(),
            match r {
                Some(v) => old(self)@.dom().contains(h) && *v == old(self)@[h] && final(self)@
                    == old(self)@.insert(h, *final(v)),
                None => !old(self)@.dom().contains(h) && final(self)@ == old(self)@,
            },
    {
        if h.index as usize >= self.entries.len() {
            return None;
        }
        let i: usize = h.index as usize;
        if self.entries[i].version != h.version || self.entries[i].value.is_none() {
            return None;
        }
        proof {
            let s = *self;
            assert forall|t: Slab<T>|
                t.free == s.free && t.live == s.live && t.entries@ == s.entries@.update(
                    i as int,
                    Entry { version: h.version, value: Some(t.entries@[i as int].value->0) },
                ) implies #[trigger] t.wf() && t.layout() == s.layout() && t@ == s@.insert(
                h,
                t.entries@[i as int].value->0,
            ) by {
                assert(t@ =~= s@.insert(h, t.entries@[i as int].value->0));
                assert(t@.dom() =~= s@.dom());
                assert(t.layout() =~= s.layout());
            }
        }
        self.entries[i].value.as_mut()
    }

    /// Takes the value out; its slot is vacant from then on.
    pub fn remove(&mut self, h: Handle) -> (r: Option<T>)
        requires
            old(self).wf(),
        ensures
            final(self).wf(),
            match r {
                Some(v) => old(self)@.dom().contains(h) && v == old(self)@[h] && final(self)@
                    == old(self)@.remove(h) && final(self)@.dom().len() + 1 == old(
                    self,
                )@.dom().len(),
                None => !old(self)@.dom().contains(h) && final(self)@ == old(self)@,
            },
            final(self).layout() == old(self).layout().removed(h),
    {
        if !self.is_live(h) {
            assert(!self@.dom().contains(h));
            return None;
        }
        self.take_out(h)
    }

    fn is_live(&self, h: Handle) -> (b: bool)
        ensures
            b == self.names(h),
    {
        if h.index as usize >= self.entries.len() {
            return false;
        }
        let e = &self.entries[h.index as usize];
        e.version == h.version && e.value.is_some()
    }

    fn take_out(&mut self, h: Handle) -> (r: Option<T>)
        requires
            old(self).wf(),
            old(self).names(h),
        ensures
            final(self).wf(),
            r == Some(old(self)@[h]),
            final(self)@ == old(self)@.remove(h),
            final(self).layout() == old(self).layout().removed(h),
            final(self).entries@ == old(self).entries@.update(
                h.index as int,
                Entry { version: next_version(h.version), value: None },
            ),
    {
        let i: usize = h.index as usize;
        assert(self@.dom().contains(h));
        let mut e = Entry { version: self.entries[i].version.wrapping_add(1), value: None };
        std::mem::swap(&mut self.entries[i].value, &mut e.value);
        let value = e.value;
        self.entries[i].version = e.version;
        self.free.push(h.index);
        self.live = self.live - 1;
        assert(self@ =~= old(self)@.remove(h));
        assert(self.entries@ =~= old(self).entries@.update(
            h.index as int,
            Entry { version: next_version(h.version), value: None },
        ));
        proof {
            assert(old(self).layout().is_live(h));
            assert(self.layout() =~= old(self).layout().removed(h));
            live_after_remove(old(self).layout(), h);
            removed_wf(old(self).layout(), h);
        }
        value
    }

    pub fn len(&self) -> (n: usize)
        requires
            self.wf(),
        ensures
            n == self@.dom().len(),
    {
        self.live
    }

    pub fn is_empty(&self) -> (b: bool)
        requires
            self.wf(),
        ensures
            b == (self@.dom().len() == 0),
    {
        self.live == 0
    }

    /// Takes every value out, slot by slot.
    pub fn clear(&mut self)
        requires
            old(self).wf(),
        ensures
            final(self).wf(),
            final(self)@ == Map::<Handle, T>::empty(),
            final(self).layout() == old(self).layout().cleared(),
    {
        let n: usize = self.entries.len();
        let ghost before = old(self).layout();
        let mut i: usize = 0;
        assert(before.free + occupied(before.versions, 0) =~= before.free);
        while i < n
            invariant
                i <= n,
                n == self.entries@.len(),
                n == old(self).entries@.len(),
                before == old(self).layout(),
                old(self).wf(),
                self.wf(),
                self.layout().free == before.free + occupied(before.versions, i as nat),
                forall|j: int|
                    i <= j < n ==> #[trigger] self.entries@[j] == old(self).entries@[j],
                forall|j: int|
                    0 <= j < i ==> (#[trigger] self.entries@[j]).value is None
                        && self.entries@[j].version == (if before.versions[j] % 2 == 1 {
                        next_version(before.versions[j])
                    } else {
                        before.versions[j]
                    }),
            decreases n - i,
        {
            let ghost listed = occupied(before.versions, i as nat);
            assert(self.entries@[i as int] == old(self).entries@[i as int]);
            assert(before.versions[i as int] == old(self).entries@[i as int].version);
            if self.entries[i].value.is_some() {
                let h = Handle { index: i as u32, version: self.entries[i].version };
                let ghost s = self.layout();
                assert(s.is_live(h));
                let _ = self.take_out(h);
                assert(self.layout().free =~= before.free + listed.push(i as u32));
            }
            i = i + 1;
        }
        assert(self.layout() =~= before.cleared());
        assert(self@ =~= Map::<Handle, T>::empty());
    }
}

impl<T> Default for Slab<T> {
    fn default() -> (s: Self)
        ensures
            s.wf(),
            s@ == Map::<Handle, T>::empty(),
            s.layout() == SlotsView::empty(),
    {
        Slab::new()
    }
}

/// An insertion makes exactly its handle live.
proof fn live_after_insert(s: SlotsView)
    requires
        s.wf(),
        s.versions.len() < 0x1_0000_0000 || s.free.len() > 0,
    ensures
        !s.is_live(s.next_handle()),
        forall|h: Handle| #[trigger]
            s.inserted().is_live(h) <==> s.is_live(h) || h == s.next_handle(),
{
    if s.free.len() > 0 {
        let index = s.free[s.free.len() - 1];
        assert(s.free.last() == index);
        assert(s.versions[index as int] % 2 == 0);
    }
}

/// A removal makes exactly its handle dead.
proof fn live_after_remove(s: SlotsView, g: Handle)
    requires
        s.is_live(g),
    ensures
        forall|h: Handle| #[trigger] s.removed(g).is_live(h) <==> s.is_live(h) && h != g,
{
}

proof fn inserted_wf(s: SlotsView)
    requires
        s.wf(),
    ensures
        s.inserted().wf(),
{
    let t = s.inserted();
    if s.free.len() > 0 {
        let n = s.free.len() - 1;
        let last = s.free[n];
        assert forall|k: int| 0 <= k < t.free.len() implies (#[trigger] t.free[k])
            < t.versions.len() && t.versions[t.free[k] as int] % 2 == 0 by {
            assert(s.free[k] != s.free[n]);
        }
        assert forall|k: int, l: int|
            0 <= k < t.free.len() && 0 <= l < t.free.len() && k != l implies t.free[k]
            != t.free[l] by {
            assert(s.free[k] != s.free[l]);
        }
    } else {
        assert(t.free =~= Seq::empty());
    }
}

proof fn removed_wf(s: SlotsView, h: Handle)
    requires
        s.wf(),
    ensures
        s.removed(h).wf(),
{
    let t = s.removed(h);
    if s.is_live(h) {
        assert forall|k: int| 0 <= k < t.free.len() implies (#[trigger] t.free[k])
            < t.versions.len() && t.versions[t.free[k] as int] % 2 == 0 by {
            if k < s.free.len() {
                assert(t.free[k] == s.free[k]);
            }
        }
        assert forall|k: int, l: int|
            0 <= k < t.free.len() && 0 <= l < t.free.len() && k != l implies t.free[k]
            != t.free[l] by {
            if k < s.free.len() {
                assert(t.free[k] == s.free[k]);
            }
            if l < s.free.len() {
                assert(t.free[l] == s.free[l]);
            }
        }
    }
}

/// Occupied slots are listed in their order.
proof fn occupied_are_occupied(versions: Seq<u32>, n: nat)
    requires
        n <= versions.len() <= 0x1_0000_0000,
    ensures
        forall|k: int|
            0 <= k < occupied(versions, n).len() ==> (#[trigger] occupied(versions, n)[k]) < n
                && versions[occupied(versions, n)[k] as int] % 2 == 1,
        occupied(versions, n).no_duplicates(),
    decreases n,
{
    if n > 0 {
        occupied_are_occupied(versions, (n - 1) as nat);
        let o = occupied(versions, (n - 1) as nat);
        let t = occupied(versions, n);
        assert forall|k: int, l: int| 0 <= k < t.len() && 0 <= l < t.len() && k != l implies t[k]
            != t[l] by {
            if k < o.len() {
                assert(t[k] == o[k]);
            }
            if l < o.len() {
                assert(t[l] == o[l]);
            }
        }
    }
}

proof fn cleared_wf(s: SlotsView)
    requires
        s.wf(),
        s.versions.len() <= 0x1_0000_0000,
    ensures
        s.cleared().wf(),
{
    let t = s.cleared();
    let o = occupied(s.versions, s.versions.len());
    occupied_are_occupied(s.versions, s.versions.len());
    assert forall|k: int| 0 <= k < t.free.len() implies (#[trigger] t.free[k]) < t.versions.len()
        && t.versions[t.free[k] as int] % 2 == 0 by {
        if k < s.free.len() {
            assert(t.free[k] == s.free[k]);
        } else {
            assert(t.free[k] == o[k - s.free.len()]);
        }
    }
    assert forall|k: int, l: int|
        0 <= k < t.free.len() && 0 <= l < t.free.len() && k != l implies t.free[k]
        != t.free[l] by {
        if k < s.free.len() {
            assert(t.free[k] == s.free[k]);
        } else {
            assert(t.free[k] == o[k - s.free.len()]);
        }
        if l < s.free.len() {
            assert(t.free[l] == s.free[l]);
        } else {
            assert(t.free[l] == o[l - s.free.len()]);
        }
    }
}

/// One operation keeps the slots well formed, makes no slot vanish, and lets
/// the version of a slot stay or go on by one.
proof fn step_moves_on(s: SlotsView, op: SlabOp)
    requires
        s.wf(),
        s.step(op).versions.len() <= 0x1_0000_0000,
    ensures
        s.step(op).wf(),
        s.versions.len() <= s.step(op).versions.len(),
        forall|i: int|
            0 <= i < s.versions.len() ==> (#[trigger] s.step(op).versions[i]) == s.versions[i]
                || s.step(op).versions[i] == next_version(s.versions[i]),
{
    match op {
        SlabOp::Insert => inserted_wf(s),
        SlabOp::Remove(h) => removed_wf(s, h),
        SlabOp::Clear => cleared_wf(s),
    }
}

/// The version of a slot counts how often it changed hands, until it wraps.
pub proof fn versions_count_changes(s: SlotsView, ops: Seq<SlabOp>, index: u32)
    requires
        s.wf(),
        s.fits(ops),
        index < s.versions.len(),
        s.versions[index as int] + s.changes(ops, index) <= u32::MAX,
    ensures
        s.after(ops).wf(),
        s.versions.len() <= s.after(ops).versions.len(),
        s.after(ops).versions[index as int] == s.versions[index as int] + s.changes(ops, index),
    decreases ops.len(),
{
    if ops.len() > 0 {
        let init = ops.drop_last();
        let before = s.after(init);
        versions_count_changes(s, init, index);
        step_moves_on(before, ops.last());
        assert(before.step(ops.last()).versions[index as int] == before.versions[index as int]
            || before.step(ops.last()).versions[index as int] == next_version(
            before.versions[index as int],
        ));
    }
}

/// A value that is stored gets a handle of its own: the handle was not live,
/// and it is live then.
pub proof fn stored_value_has_its_handle(s: SlotsView)
    requires
        s.wf(),
        s.versions.len() < 0x1_0000_0000 || s.free.len() > 0,
    ensures
        !s.is_live(s.next_handle()),
        s.inserted().is_live(s.next_handle()),
        s.inserted().was_given(s.next_handle()),
{
    live_after_insert(s);
}

/// A handle whose value is gone resolves to nothing whatever is done later, and
/// so never to what took its slot, until the slot's version wraps.
pub proof fn stale_handle_stays_dead(s: SlotsView, h: Handle, ops: Seq<SlabOp>)
    requires
        s.wf(),
        s.was_given(h),
        !s.is_live(h),
        s.fits(ops),
        s.versions[h.index as int] + s.changes(ops, h.index) <= u32::MAX,
    ensures
        !s.after(ops).is_live(h),
{
    versions_count_changes(s, ops, h.index);
}

/// A handle that was given out counts as given out ever after, until its slot's
/// version wraps.
pub proof fn given_handle_stays_given(s: SlotsView, h: Handle, ops: Seq<SlabOp>)
    requires
        s.wf(),
        s.was_given(h),
        s.fits(ops),
        s.versions[h.index as int] + s.changes(ops, h.index) <= u32::MAX,
    ensures
        s.after(ops).was_given(h),
{
    versions_count_changes(s, ops, h.index);
}

/// Every handle given out before a clearing resolves to nothing, at once and
/// whatever is done later, until its slot's version wraps.
pub proof fn cleared_handles_stay_dead(s: SlotsView, h: Handle, ops: Seq<SlabOp>)
    requires
        s.wf(),
        s.was_given(h),
        s.versions.len() <= 0x1_0000_0000,
        s.cleared().fits(ops),
        s.versions[h.index as int] + 1 + s.cleared().changes(ops, h.index) <= u32::MAX,
    ensures
        !s.cleared().is_live(h),
        !s.cleared().after(ops).is_live(h),
{
    cleared_wf(s);
    stale_handle_stays_dead(s.cleared(), h, ops);
}

/// Two handles to the same slot that are both live are the same handle.
pub proof fn one_live_handle_per_slot(s: SlotsView, g: Handle, h: Handle)
    requires
        s.is_live(g),
        s.is_live(h),
        g.index == h.index,
    ensures
        g == h,
{
}

/// The slot that was freed last is used first, under a new version; without a
/// free slot there is one more, at its first version.
pub proof fn the_slot_freed_last_is_used_first(s: SlotsView, h: Handle)
    requires
        s.wf(),
        s.is_live(h),
        h.version <= u32::MAX - 2,
    ensures
        s.removed(h).next_handle() == (Handle {
            index: h.index,
            version: (h.version + 2) as u32,
        }),
        s.free.len() == 0 && s.versions.len() <= u32::MAX ==> s.next_handle() == (Handle {
            index: s.versions.len() as u32,
            version: 1,
        }),
        s.removed(h).free.len() == s.free.len() + 1,
        s.removed(h).versions.len() == s.versions.len(),
        forall|i: int|
            0 <= i < s.versions.len() && i != h.index ==> #[trigger] s.removed(h).versions[i]
                == s.versions[i],
{
}

/// A handle that is not live removes nothing.
pub proof fn a_dead_handle_removes_nothing(s: SlotsView, h: Handle)
    requires
        h.index >= s.versions.len() || s.versions[h.index as int] != h.version || h.version % 2 == 0,
    ensures
        s.removed(h) == s,
{
}

/// Clearing frees every slot: no version is an occupied one, and the last slot
/// that was occupied is used first.
pub proof fn clearing_frees_every_slot(s: SlotsView, i: int)
    requires
        0 <= i < s.versions.len() <= u32::MAX,
    ensures
        s.cleared().versions.len() == s.versions.len(),
        s.cleared().versions[i] % 2 == 0,
        s.versions[i] % 2 == 0 ==> s.cleared().versions[i] == s.versions[i],
        s.versions[s.versions.len() - 1] % 2 == 1 ==> s.cleared().next_handle().index
            == s.versions.len() - 1,
        s.cleared().free.take(s.free.len() as int) == s.free,
{
    assert(s.cleared().free.take(s.free.len() as int) =~= s.free);
}

} // verus!
