//! Per-transmission accounting, independent of whether the content survived.
//!
//! A congestion controller asks whether a packet arrived.  The retransmission
//! cache knows whether content arrived, and drops an entry when its tile is
//! superseded.  This ledger keeps the packet's fate apart from the content's:
//! every transmission is classified once, as received or as lost.
use crate::reliable_emitter::emitter;
use crate::reliable_emitter::EmitKey;
use crate::seqs;
use crate::time::{Duration, Instant};
use std::collections::{HashMap, VecDeque};
use vstd::prelude::*;

verus! {

broadcast use {
    vstd::std_specs::hash::group_hash_axioms,
    vstd::std_specs::vecdeque::group_vec_dequeue_axioms,
};

/// What was sent, and what it was sent for.
#[derive(Debug, Clone, Copy, PartialEq, Eq, Structural)]
pub struct Transmission {
    /// Microseconds of the sender's clock, as stamped into the datagram.
    pub emit_us: u32,
    pub wire_bytes: usize,
    /// Which tile-pass it carried.
    pub key: EmitKey,
}

/// What an acknowledgement turned out to refer to.
#[derive(Debug, Clone, Copy, PartialEq, Eq, Structural)]
pub enum Resolution {
    /// The transmission was outstanding.
    Live(Transmission),
    /// The transmission had been declared lost.  Its content is to be
    /// released, but its timing was accounted for already.
    Late(Transmission),
}

#[derive(Debug, Clone, Copy, PartialEq, Eq, Structural)]
pub struct LedgerStats {
    /// Acknowledgements of which there is no record.
    pub unknown_acks: u64,
    /// Records dropped by the capacity and not by the horizon.
    pub capacity_evictions: u64,
    /// Acknowledgements that came after the transmission was declared lost.
    pub acked_after_declared_lost: u64,
}

impl Default for LedgerStats {
    fn default() -> (s: Self)
        ensures
            s == no_stats(),
    {
        LedgerStats { unknown_acks: 0, capacity_evictions: 0, acked_after_declared_lost: 0 }
    }
}

/// All counters at zero.
pub open spec fn no_stats() -> LedgerStats {
    LedgerStats { unknown_acks: 0, capacity_evictions: 0, acked_after_declared_lost: 0 }
}

/// Every number but `k`.
pub open spec fn other_than(k: u32) -> spec_fn(u32) -> bool {
    |x: u32| x != k
}

/// How long ago `at` was.
pub open spec fn age(now: Instant, at: Instant) -> int {
    if now.nanos >= at.nanos {
        now.nanos - at.nanos
    } else {
        0
    }
}

/// The tombstones without the oldest, so that the capacity holds.
pub open spec fn newest_tombs(
    tombs: Map<u32, Transmission>,
    order: Seq<u32>,
    capacity: nat,
) -> (Map<u32, Transmission>, Seq<u32>)
    decreases order.len(),
{
    if tombs.dom().len() <= capacity || order.len() == 0 {
        (tombs, order)
    } else {
        newest_tombs(tombs.remove(order[0]), order.skip(1), capacity)
    }
}

/// State of a [`TransmissionLedger`].
#[verifier::ext_equal]
pub struct LedgerView {
    /// Outstanding transmissions by emission number, with the time of sending.
    pub live: Map<u32, (Instant, Transmission)>,
    /// Their numbers, oldest first; some may be resolved already.
    pub order: Seq<u32>,
    /// Transmissions declared lost whose acknowledgement may still come.
    pub tombs: Map<u32, Transmission>,
    /// Their numbers, oldest first.
    pub tomb_order: Seq<u32>,
    pub capacity: nat,
    pub stats: LedgerStats,
}

impl LedgerView {
    /// Drops the oldest records until the capacity holds.
    pub open spec fn trimmed(self) -> LedgerView
        decreases self.order.len(),
    {
        if self.live.dom().len() <= self.capacity || self.order.len() == 0 {
            self
        } else {
            let oldest = self.order[0];
            LedgerView {
                live: self.live.remove(oldest),
                order: self.order.skip(1),
                stats: (if self.live.dom().contains(oldest) {
                    LedgerStats {
                        capacity_evictions: emitter::one_more(self.stats.capacity_evictions),
                        ..self.stats
                    }
                } else {
                    self.stats
                }),
                ..self
            }.trimmed()
        }
    }

    /// A transmission becomes outstanding.  A record under the same number is
    /// replaced, and counted as dropped.
    pub open spec fn recorded(self, wire_seq: u32, at: Instant, tx: Transmission) -> LedgerView {
        let replaced = self.live.dom().contains(wire_seq);
        LedgerView {
            live: self.live.insert(wire_seq, (at, tx)),
            order: (if replaced {
                self.order.filter(other_than(wire_seq))
            } else {
                self.order
            }).push(wire_seq),
            stats: (if replaced {
                LedgerStats {
                    capacity_evictions: emitter::one_more(self.stats.capacity_evictions),
                    ..self.stats
                }
            } else {
                self.stats
            }),
            ..self
        }.trimmed()
    }

    /// What an acknowledgement of this number refers to.
    pub open spec fn resolution(self, wire_seq: u32) -> Option<Resolution> {
        if self.live.dom().contains(wire_seq) {
            Some(Resolution::Live(self.live[wire_seq].1))
        } else if self.tombs.dom().contains(wire_seq) {
            Some(Resolution::Late(self.tombs[wire_seq]))
        } else {
            None
        }
    }

    /// An acknowledgement is taken in.
    pub open spec fn resolved(self, wire_seq: u32) -> LedgerView {
        if self.live.dom().contains(wire_seq) {
            LedgerView { live: self.live.remove(wire_seq), ..self }
        } else if self.tombs.dom().contains(wire_seq) {
            LedgerView {
                tombs: self.tombs.remove(wire_seq),
                stats: LedgerStats {
                    acked_after_declared_lost: emitter::one_more(
                        self.stats.acked_after_declared_lost,
                    ),
                    ..self.stats
                },
                ..self
            }
        } else {
            LedgerView {
                stats: LedgerStats {
                    unknown_acks: emitter::one_more(self.stats.unknown_acks),
                    ..self.stats
                },
                ..self
            }
        }
    }

    /// An outstanding transmission becomes a tombstone.
    pub open spec fn buried(self, wire_seq: u32) -> LedgerView {
        let (tombs, tomb_order) = newest_tombs(
            self.tombs.insert(wire_seq, self.live[wire_seq].1),
            self.tomb_order.push(wire_seq),
            self.capacity,
        );
        LedgerView { live: self.live.remove(wire_seq), tombs, tomb_order, ..self }
    }

    /// Without the oldest number.
    pub open spec fn behind(self) -> LedgerView {
        LedgerView { order: self.order.skip(1), ..self }
    }

    /// The oldest number is that of a transmission outstanding for no more
    /// than `horizon`.
    pub open spec fn young(self, now: Instant, horizon: Duration) -> bool {
        self.live.dom().contains(self.order[0]) && age(now, self.live[self.order[0]].0)
            <= horizon.nanos
    }

    /// From the oldest on, up to the first that is young, outstanding
    /// transmissions are declared lost.  Gives the state behind them.
    pub open spec fn expired(self, now: Instant, horizon: Duration) -> LedgerView
        decreases self.order.len(),
    {
        if self.order.len() == 0 || self.young(now, horizon) {
            self
        } else if self.live.dom().contains(self.order[0]) {
            self.behind().buried(self.order[0]).expired(now, horizon)
        } else {
            self.behind().expired(now, horizon)
        }
    }

    /// The numbers of the transmissions declared lost, in order.
    pub open spec fn lost(self, now: Instant, horizon: Duration) -> Seq<u32>
        decreases self.order.len(),
    {
        if self.order.len() == 0 || self.young(now, horizon) {
            Seq::empty()
        } else if self.live.dom().contains(self.order[0]) {
            seq![self.order[0]] + self.behind().buried(self.order[0]).lost(now, horizon)
        } else {
            self.behind().lost(now, horizon)
        }
    }

    /// What was sent under these numbers.
    pub open spec fn transmissions(self, numbers: Seq<u32>) -> Seq<Transmission> {
        numbers.map_values(|w: u32| self.live[w].1)
    }
}

/// Which transmissions are outstanding, and which were declared lost.
pub struct TransmissionLedger {
    records: HashMap<u32, (Instant, Transmission)>,
    order: VecDeque<u32>,
    capacity: usize,
    stats: LedgerStats,
    tombstones: HashMap<u32, Transmission>,
    tombstone_order: VecDeque<u32>,
}

impl View for TransmissionLedger {
    type V = LedgerView;

    closed spec fn view(&self) -> LedgerView {
        LedgerView {
            live: self.records@,
            order: self.order@,
            tombs: self.tombstones@,
            tomb_order: self.tombstone_order@,
            capacity: self.capacity as nat,
            stats: self.stats,
        }
    }
}

impl LedgerView {
    /// Everything outstanding and every tombstone has its number in order, and
    /// the capacity holds.
    pub open spec fn wf(self) -> bool {
        &&& self.live.dom().finite()
        &&& self.tombs.dom().finite()
        &&& self.live.dom().len() <= self.capacity
        &&& self.tombs.dom().len() <= self.capacity
        &&& self.live_ordered()
        &&& self.tombs_ordered()
    }

    pub open spec fn live_ordered(self) -> bool {
        forall|w: u32| #[trigger] self.live.dom().contains(w) ==> self.order.contains(w)
    }

    pub open spec fn tombs_ordered(self) -> bool {
        all_listed(self.tombs, self.tomb_order)
    }
}

/// Every tombstone has its number in order.
pub open spec fn all_listed(tombs: Map<u32, Transmission>, order: Seq<u32>) -> bool {
    forall|w: u32| #[trigger] tombs.dom().contains(w) ==> order.contains(w)
}

/// A number behind the first is still there without it.
proof fn contains_behind(s: Seq<u32>, w: u32)
    requires
        s.contains(w),
        s.len() > 0,
        w != s[0],
    ensures
        s.skip(1).contains(w),
{
    let i = choose|i: int| 0 <= i < s.len() && s[i] == w;
    assert(s.skip(1)[i - 1] == w);
}

/// With every record in order, dropping the oldest reaches the capacity.
proof fn trimmed_fits(s: LedgerView)
    requires
        s.live.dom().finite(),
        s.live_ordered(),
    ensures
        s.trimmed().live.dom().finite(),
        s.trimmed().live.dom().len() <= s.capacity,
        s.trimmed().live_ordered(),
        s.trimmed().tombs == s.tombs,
        s.trimmed().tomb_order == s.tomb_order,
        s.trimmed().capacity == s.capacity,
    decreases s.order.len(),
{
    if s.live.dom().len() <= s.capacity {
    } else if s.order.len() == 0 {
        assert(s.live.dom() =~= Set::empty()) by {
            assert forall|w: u32| !s.live.dom().contains(w) by {
                if s.live.dom().contains(w) {
                    assert(s.order.contains(w));
                }
            }
        }
    } else {
        let oldest = s.order[0];
        let t = LedgerView {
            live: s.live.remove(oldest),
            order: s.order.skip(1),
            stats: (if s.live.dom().contains(oldest) {
                LedgerStats {
                    capacity_evictions: emitter::one_more(s.stats.capacity_evictions),
                    ..s.stats
                }
            } else {
                s.stats
            }),
            ..s
        };
        assert forall|w: u32| #[trigger] t.live.dom().contains(w) implies t.order.contains(w) by {
            contains_behind(s.order, w);
        }
        trimmed_fits(t);
    }
}

/// A record keeps the ledger well formed.
proof fn recorded_wf(s: LedgerView, wire_seq: u32, at: Instant, tx: Transmission)
    requires
        s.wf(),
    ensures
        s.recorded(wire_seq, at, tx).wf(),
        s.recorded(wire_seq, at, tx).capacity == s.capacity,
        s.recorded(wire_seq, at, tx).tombs == s.tombs,
{
    let replaced = s.live.dom().contains(wire_seq);
    let kept = if replaced {
        s.order.filter(other_than(wire_seq))
    } else {
        s.order
    };
    let live = s.live.insert(wire_seq, (at, tx));
    let order = kept.push(wire_seq);
    assert forall|w: u32| #[trigger] live.dom().contains(w) implies order.contains(w) by {
        if w == wire_seq {
            assert(order[kept.len() as int] == w);
        } else {
            assert(s.order.contains(w));
            if replaced {
                let j = choose|j: int| 0 <= j < s.order.len() && s.order[j] == w;
                seqs::filter_keeps(s.order, other_than(wire_seq), j);
            }
            let i = choose|i: int| 0 <= i < kept.len() && kept[i] == w;
            assert(order[i] == w);
        }
    }
    trimmed_fits(
        LedgerView {
            live,
            order,
            stats: (if replaced {
                LedgerStats {
                    capacity_evictions: emitter::one_more(s.stats.capacity_evictions),
                    ..s.stats
                }
            } else {
                s.stats
            }),
            ..s
        },
    );
}

/// The same for the tombstones.
proof fn newest_tombs_fit(tombs: Map<u32, Transmission>, order: Seq<u32>, capacity: nat)
    requires
        tombs.dom().finite(),
        all_listed(tombs, order),
    ensures
        newest_tombs(tombs, order, capacity).0.dom().finite(),
        newest_tombs(tombs, order, capacity).0.dom().len() <= capacity,
        all_listed(newest_tombs(tombs, order, capacity).0, newest_tombs(tombs, order, capacity).1),
    decreases order.len(),
{
    if tombs.dom().len() <= capacity {
    } else if order.len() == 0 {
        assert(tombs.dom() =~= Set::empty()) by {
            assert forall|w: u32| !tombs.dom().contains(w) by {
                if tombs.dom().contains(w) {
                    assert(order.contains(w));
                }
            }
        }
    } else {
        let rest = tombs.remove(order[0]);
        assert forall|w: u32| #[trigger] rest.dom().contains(w) implies order.skip(1).contains(
            w,
        ) by {
            contains_behind(order, w);
        }
        newest_tombs_fit(rest, order.skip(1), capacity);
    }
}

/// A transmission that is buried keeps the ledger well formed.
proof fn buried_wf(s: LedgerView)
    requires
        s.wf(),
        s.order.len() > 0,
        s.live.dom().contains(s.order[0]),
    ensures
        s.behind().buried(s.order[0]).wf(),
{
    let w0 = s.order[0];
    let rest = s.live.remove(w0);
    assert forall|w: u32| #[trigger] rest.dom().contains(w) implies s.order.skip(1).contains(
        w,
    ) by {
        contains_behind(s.order, w);
    }
    let tombs = s.tombs.insert(w0, s.live[w0].1);
    let tomb_order = s.tomb_order.push(w0);
    assert forall|w: u32| #[trigger] tombs.dom().contains(w) implies tomb_order.contains(w) by {
        if w == w0 {
            assert(tomb_order[s.tomb_order.len() as int] == w0);
        } else {
            let i = choose|i: int| 0 <= i < s.tomb_order.len() && s.tomb_order[i] == w;
            assert(tomb_order[i] == w);
        }
    }
    newest_tombs_fit(tombs, tomb_order, s.capacity);
}

/// A number that is no longer outstanding can be dropped from the order.
proof fn behind_wf(s: LedgerView)
    requires
        s.wf(),
        s.order.len() > 0,
        !s.live.dom().contains(s.order[0]),
    ensures
        s.behind().wf(),
{
    assert forall|w: u32| #[trigger]
        s.behind().live.dom().contains(w) implies s.behind().order.contains(w) by {
        contains_behind(s.order, w);
    }
}

impl TransmissionLedger {
    /// The ledger's invariant.
    pub open spec fn wf(&self) -> bool {
        self@.wf()
    }

    /// An empty ledger.
    pub fn new(capacity: usize) -> (l: Self)
        ensures
            l.wf(),
            l@ == (LedgerView {
                live: Map::empty(),
                order: Seq::empty(),
                tombs: Map::empty(),
                tomb_order: Seq::empty(),
                capacity: capacity as nat,
                stats: no_stats(),
            }),
    {
        TransmissionLedger {
            records: HashMap::new(),
            order: VecDeque::new(),
            capacity,
            stats: LedgerStats::default(),
            tombstones: HashMap::new(),
            tombstone_order: VecDeque::new(),
        }
    }

    pub fn stats(&self) -> (s: LedgerStats)
        ensures
            s == self@.stats,
    {
        self.stats
    }

    /// Number of lost transmissions whose acknowledgement may still come.
    pub fn tombstone_len(&self) -> (n: usize)
        ensures
            n == self@.tombs.dom().len(),
    {
        self.tombstones.len()
    }

    /// Number of outstanding transmissions.
    pub fn len(&self) -> (n: usize)
        ensures
            n == self@.live.dom().len(),
    {
        self.records.len()
    }

    pub fn is_empty(&self) -> (b: bool)
        ensures
            b == (self@.live.dom().len() == 0),
    {
        self.records.len() == 0
    }

    /// Notes a transmission as outstanding.
    ///
    /// Numbers are unique per transmission, so a record under the same number
    /// means that the numbering wrapped around; it can no longer be
    /// classified.  Above the capacity the oldest records are dropped.
    pub fn record(&mut self, wire_seq: u32, at: Instant, tx: Transmission)
        requires
            old(self).wf(),
        ensures
            final(self).wf(),
            final(self)@ == old(self)@.recorded(wire_seq, at, tx),
    {
        let ghost s = self@;
        let replaced: bool = self.records.contains_key(&wire_seq);
        let _ = self.records.insert(wire_seq, (at, tx));
        if replaced {
            self.stats.capacity_evictions = self.stats.capacity_evictions.saturating_add(1);
            self.forget_number(wire_seq);
        }
        self.order.push_back(wire_seq);
        proof {
            recorded_wf(s, wire_seq, at, tx);
        }
        let ghost full = self@;
        while self.records.len() > self.capacity && self.order.len() > 0
            invariant
                self@.trimmed() == full.trimmed(),
                self@.capacity == full.capacity,
            decreases self@.order.len(),
        {
            let ghost before = self@;
            let oldest: u32 = self.order.pop_front().unwrap();
            assert(self.order@ =~= before.order.skip(1));
            if self.records.contains_key(&oldest) {
                let _ = self.records.remove(&oldest);
                self.stats.capacity_evictions = self.stats.capacity_evictions.saturating_add(1);
            } else {
                assert(before.live.remove(oldest) =~= before.live);
            }
            assert(self@.live =~= before.live.remove(oldest));
        }
    }

    /// Takes every occurrence of a number out of the order.
    fn forget_number(&mut self, wire_seq: u32)
        ensures
            final(self)@ == (LedgerView {
                order: old(self)@.order.filter(other_than(wire_seq)),
                ..old(self)@
            }),
    {
        let n: usize = self.order.len();
        let ghost all = self.order@;
        let mut i: usize = 0;
        proof {
            seqs::filter_empty(other_than(wire_seq));
            assert(all.take(0) =~= Seq::empty());
            assert(all.skip(0) + all.take(0).filter(other_than(wire_seq)) =~= all);
        }
        while i < n
            invariant
                i <= n,
                n == all.len(),
                all == old(self)@.order,
                self.order@ == all.skip(i as int) + all.take(i as int).filter(
                    other_than(wire_seq),
                ),
                self.records == old(self).records,
                self.capacity == old(self).capacity,
                self.stats == old(self).stats,
                self.tombstones == old(self).tombstones,
                self.tombstone_order == old(self).tombstone_order,
            decreases n - i,
        {
            let ghost kept = all.take(i as int).filter(other_than(wire_seq));
            let w: u32 = self.order.pop_front().unwrap();
            assert(w == all[i as int]);
            assert(self.order@ =~= all.skip(i + 1) + kept);
            if w != wire_seq {
                self.order.push_back(w);
            }
            proof {
                let upto = all.take(i + 1);
                seqs::filter_last(upto, other_than(wire_seq));
                assert(upto.drop_last() =~= all.take(i as int));
                assert(upto.last() == w);
                assert(self.order@ =~= all.skip(i + 1) + upto.filter(other_than(wire_seq)));
            }
            i = i + 1;
        }
        assert(all.take(n as int) =~= all);
        assert(self.order@ =~= all.filter(other_than(wire_seq)));
    }

    /// Takes in an acknowledgement.  A loss that was reported is not taken
    /// back: the acknowledgement is late, and its content can be released.
    pub fn resolve(&mut self, wire_seq: u32) -> (r: Option<Resolution>)
        requires
            old(self).wf(),
        ensures
            final(self).wf(),
            r == old(self)@.resolution(wire_seq),
            final(self)@ == old(self)@.resolved(wire_seq),
    {
        if let Some(entry) = self.records.remove(&wire_seq) {
            assert(self@ =~= old(self)@.resolved(wire_seq));
            return Some(Resolution::Live(entry.1));
        }
        assert(self@ =~= old(self)@);
        if let Some(tx) = self.tombstones.remove(&wire_seq) {
            self.stats.acked_after_declared_lost =
                self.stats.acked_after_declared_lost.saturating_add(1);
            assert(self@ =~= old(self)@.resolved(wire_seq));
            return Some(Resolution::Late(tx));
        }
        self.stats.unknown_acks = self.stats.unknown_acks.saturating_add(1);
        assert(self@ =~= old(self)@.resolved(wire_seq));
        None
    }

    /// Declares lost what is outstanding for more than `horizon`, from the
    /// oldest up to the first that is not: numbers are in the order of
    /// sending, so nothing behind that is older.
    pub fn expire(&mut self, now: Instant, horizon: Duration) -> (lost: Vec<Transmission>)
        requires
            old(self).wf(),
        ensures
            final(self).wf(),
            final(self)@ == old(self)@.expired(now, horizon),
            lost@ == old(self)@.transmissions(old(self)@.lost(now, horizon)),
    {
        let mut lost: Vec<Transmission> = Vec::new();
        let ghost s = self@;
        let ghost done: Seq<u32> = Seq::empty();
        assert(done + s.lost(now, horizon) =~= s.lost(now, horizon));
        assert(lost@ =~= s.transmissions(done));
        while self.order.len() > 0
            invariant
                s == old(self)@,
                self.wf(),
                self@.expired(now, horizon) == s.expired(now, horizon),
                done + self@.lost(now, horizon) == s.lost(now, horizon),
                lost@ == s.transmissions(done),
                forall|w: u32| #[trigger]
                    self@.live.dom().contains(w) ==> s.live.dom().contains(w) && self@.live[w]
                        == s.live[w],
            decreases self@.order.len(),
        {
            let ghost t = self@;
            let front: u32 = self.order[0];
            let found: Option<(Instant, Transmission)> = match self.records.get(&front) {
                Some(entry) => Some(*entry),
                None => None,
            };
            match found {
                None => {
                    let _ = self.order.pop_front();
                    proof {
                        assert(self@ =~= t.behind());
                        behind_wf(t);
                    }
                },
                Some(entry) => {
                    if now.duration_since(entry.0).nanos <= horizon.nanos {
                        assert(t.young(now, horizon));
                        assert(done + self@.lost(now, horizon) =~= done);
                        return lost;
                    }
                    let _ = self.order.pop_front();
                    let _ = self.records.remove(&front);
                    self.bury(front, entry.1);
                    lost.push(entry.1);
                    proof {
                        buried_wf(t);
                        assert(t.behind().live.remove(front) == t.live.remove(front));
                        assert(self@ == t.behind().buried(front));
                        let rest = self@.lost(now, horizon);
                        assert(t.lost(now, horizon) == seq![front] + rest);
                        assert(done + (seq![front] + rest) =~= done.push(front) + rest);
                        done = done.push(front);
                        assert(lost@ =~= s.transmissions(done));
                    }
                },
            }
        }
        assert(done + self@.lost(now, horizon) =~= done);
        lost
    }

    /// Adds a tombstone for a transmission that was just taken out.
    fn bury(&mut self, wire_seq: u32, tx: Transmission)
        ensures
            ({
                let (tombs, tomb_order) = newest_tombs(
                    old(self)@.tombs.insert(wire_seq, tx),
                    old(self)@.tomb_order.push(wire_seq),
                    old(self)@.capacity,
                );
                final(self)@ == (LedgerView { tombs, tomb_order, ..old(self)@ })
            }),
    {
        let _ = self.tombstones.insert(wire_seq, tx);
        self.tombstone_order.push_back(wire_seq);
        let ghost tombs = self@.tombs;
        let ghost order = self@.tomb_order;
        while self.tombstones.len() > self.capacity && self.tombstone_order.len() > 0
            invariant
                newest_tombs(self@.tombs, self@.tomb_order, self@.capacity) == newest_tombs(
                    tombs,
                    order,
                    self@.capacity,
                ),
                self.records == old(self).records,
                self.order == old(self).order,
                self.capacity == old(self).capacity,
                self.stats == old(self).stats,
            decreases self@.tomb_order.len(),
        {
            let ghost before = self@;
            let oldest: u32 = self.tombstone_order.pop_front().unwrap();
            let _ = self.tombstones.remove(&oldest);
            assert(self@.tomb_order =~= before.tomb_order.skip(1));
            assert(self@.tombs =~= before.tombs.remove(before.tomb_order[0]));
        }
    }
}

/// Numbers are in the order of sending.
pub open spec fn in_send_order(s: LedgerView) -> bool {
    forall|i: int, j: int|
        0 <= i <= j < s.order.len() && s.live.dom().contains(s.order[i]) && s.live.dom().contains(
            s.order[j],
        ) ==> s.live[#[trigger] s.order[i]].0.nanos <= s.live[#[trigger] s.order[j]].0.nanos
}

/// What a sweep declares lost was outstanding for more than the horizon, is
/// declared lost once and is outstanding no longer; everything else stays
/// outstanding.  If transmissions were recorded in the order of sending,
/// nothing older than the horizon stays.
pub proof fn sweep_classifies_the_old(s: LedgerView, now: Instant, horizon: Duration)
    requires
        s.wf(),
    ensures
        s.expired(now, horizon).wf(),
        s.expired(now, horizon).capacity == s.capacity,
        s.lost(now, horizon).no_duplicates(),
        forall|w: u32| #[trigger]
            s.lost(now, horizon).contains(w) ==> s.live.dom().contains(w) && age(
                now,
                s.live[w].0,
            ) > horizon.nanos,
        forall|w: u32| #[trigger]
            s.expired(now, horizon).live.dom().contains(w) <==> s.live.dom().contains(w)
                && !s.lost(now, horizon).contains(w),
        forall|w: u32| #[trigger]
            s.expired(now, horizon).live.dom().contains(w) ==> s.expired(now, horizon).live[w]
                == s.live[w],
        in_send_order(s) ==> forall|w: u32| #[trigger]
            s.expired(now, horizon).live.dom().contains(w) ==> age(now, s.live[w].0)
                <= horizon.nanos,
    decreases s.order.len(),
{
    let lost = s.lost(now, horizon);
    let after = s.expired(now, horizon);
    if s.order.len() == 0 {
        assert forall|w: u32| !s.live.dom().contains(w) by {
            if s.live.dom().contains(w) {
                assert(s.order.contains(w));
            }
        }
    } else if s.young(now, horizon) {
        if in_send_order(s) {
            assert forall|w: u32| #[trigger] after.live.dom().contains(w) implies age(
                now,
                s.live[w].0,
            ) <= horizon.nanos by {
                assert(s.order.contains(w));
                let i = choose|i: int| 0 <= i < s.order.len() && s.order[i] == w;
                assert(s.live[s.order[0]].0.nanos <= s.live[s.order[i]].0.nanos);
            }
        }
    } else {
        let w0 = s.order[0];
        let t = if s.live.dom().contains(w0) {
            s.behind().buried(w0)
        } else {
            s.behind()
        };
        if s.live.dom().contains(w0) {
            buried_wf(s);
        } else {
            behind_wf(s);
        }
        sweep_classifies_the_old(t, now, horizon);
        let rest = t.lost(now, horizon);
        if s.live.dom().contains(w0) {
            assert(!rest.contains(w0)) by {
                if rest.contains(w0) {
                    assert(t.live.dom().contains(w0));
                }
            }
            assert(lost == seq![w0] + rest);
            assert forall|w: u32| lost.contains(w) <==> w == w0 || rest.contains(w) by {
                if lost.contains(w) {
                    let i = choose|i: int| 0 <= i < lost.len() && lost[i] == w;
                    if i > 0 {
                        assert(rest[i - 1] == w);
                    }
                }
                if rest.contains(w) {
                    let i = choose|i: int| 0 <= i < rest.len() && rest[i] == w;
                    assert(lost[i + 1] == w);
                }
                assert(lost[0] == w0);
            }
            assert(lost.no_duplicates()) by {
                assert forall|i: int, j: int|
                    0 <= i < j < lost.len() implies lost[i] != lost[j] by {
                    if i == 0 {
                        assert(rest[j - 1] == lost[j]);
                        assert(rest.contains(lost[j]));
                    } else {
                        assert(rest[i - 1] == lost[i]);
                        assert(rest[j - 1] == lost[j]);
                    }
                }
            }
        }
        if in_send_order(s) {
            assert forall|i: int, j: int|
                0 <= i <= j < t.order.len() && t.live.dom().contains(t.order[i])
                    && t.live.dom().contains(t.order[j]) implies t.live[
                #[trigger] t.order[i]].0.nanos <= t.live[#[trigger] t.order[j]].0.nanos by {
                assert(t.order[i] == s.order[i + 1]);
                assert(t.order[j] == s.order[j + 1]);
            }
        }
    }
}

/// An operation on a ledger.
pub enum LedgerOp {
    Record(u32, Instant, Transmission),
    Resolve(u32),
    Expire(Instant, Duration),
}

impl LedgerView {
    /// The state after some operations.
    pub open spec fn after(self, ops: Seq<LedgerOp>) -> LedgerView
        decreases ops.len(),
    {
        if ops.len() == 0 {
            self
        } else {
            let s = self.after(ops.drop_last());
            match ops.last() {
                LedgerOp::Record(w, at, tx) => s.recorded(w, at, tx),
                LedgerOp::Resolve(w) => s.resolved(w),
                LedgerOp::Expire(now, horizon) => s.expired(now, horizon),
            }
        }
    }

    /// The numbers that some operations classified: acknowledged while
    /// outstanding, or declared lost.
    pub open spec fn classified(self, ops: Seq<LedgerOp>) -> Seq<u32>
        decreases ops.len(),
    {
        if ops.len() == 0 {
            Seq::empty()
        } else {
            let s = self.after(ops.drop_last());
            let before = self.classified(ops.drop_last());
            match ops.last() {
                LedgerOp::Record(_, _, _) => before,
                LedgerOp::Resolve(w) => if s.live.dom().contains(w) {
                    before.push(w)
                } else {
                    before
                },
                LedgerOp::Expire(now, horizon) => before + s.lost(now, horizon),
            }
        }
    }
}

/// The numbers that some operations recorded.
pub open spec fn numbers_of(ops: Seq<LedgerOp>) -> Seq<u32>
    decreases ops.len(),
{
    if ops.len() == 0 {
        Seq::empty()
    } else {
        let before = numbers_of(ops.drop_last());
        match ops.last() {
            LedgerOp::Record(w, _, _) => before.push(w),
            _ => before,
        }
    }
}

/// A set of numbers from a list is no larger than the list.
proof fn listed_set_is_small(dom: Set<u32>, list: Seq<u32>)
    requires
        forall|w: u32| #[trigger] dom.contains(w) ==> list.contains(w),
    ensures
        dom.finite(),
        dom.len() <= list.len(),
{
    list.lemma_cardinality_of_set();
    assert(dom.subset_of(list.to_set()));
    vstd::set_lib::lemma_len_subset(dom, list.to_set());
}

/// Across any interleaving of recording, resolving and expiring, a
/// transmission is classified exactly once: what was recorded is either still
/// outstanding or was classified, never both and never neither, and nothing is
/// classified twice.  Numbers are unique and the capacity covers them.
pub proof fn every_transmission_is_classified_exactly_once(s: LedgerView, ops: Seq<LedgerOp>)
    requires
        s.wf(),
        s.live.dom() == Set::<u32>::empty(),
        numbers_of(ops).no_duplicates(),
        numbers_of(ops).len() <= s.capacity,
    ensures
        s.after(ops).wf(),
        s.after(ops).capacity == s.capacity,
        s.classified(ops).no_duplicates(),
        forall|w: u32| #[trigger]
            numbers_of(ops).contains(w) <==> s.classified(ops).contains(w)
                || s.after(ops).live.dom().contains(w),
        forall|w: u32|
            !(#[trigger] s.classified(ops).contains(w) && s.after(ops).live.dom().contains(w)),
    decreases ops.len(),
{
    if ops.len() > 0 {
        let init = ops.drop_last();
        let before = numbers_of(init);
        let all = numbers_of(ops);
        assert(before.no_duplicates()) by {
            assert forall|i: int, j: int| 0 <= i < j < before.len() implies before[i]
                != before[j] by {
                assert(all[i] == before[i] && all[j] == before[j]);
            }
        }
        every_transmission_is_classified_exactly_once(s, init);
        let t = s.after(init);
        let c = s.classified(init);
        match ops.last() {
            LedgerOp::Record(w, at, tx) => {
                assert(!before.contains(w)) by {
                    if before.contains(w) {
                        let i = choose|i: int| 0 <= i < before.len() && before[i] == w;
                        assert(all[i] == w && all[before.len() as int] == w);
                    }
                }
                assert(!t.live.dom().contains(w));
                recorded_wf(t, w, at, tx);
                let live = t.live.insert(w, (at, tx));
                assert forall|x: u32| all.contains(x) <==> before.contains(x) || x == w by {
                    if before.contains(x) {
                        let i = choose|i: int| 0 <= i < before.len() && before[i] == x;
                        assert(all[i] == x);
                    }
                    assert(all[before.len() as int] == w);
                    if all.contains(x) {
                        let i = choose|i: int| 0 <= i < all.len() && all[i] == x;
                        if i < before.len() {
                            assert(before[i] == x);
                        }
                    }
                }
                assert forall|x: u32| #[trigger] live.dom().contains(x) implies all.contains(
                    x,
                ) by {}
                listed_set_is_small(live.dom(), all);
                assert(s.after(ops).live == live);
            },
            LedgerOp::Resolve(w) => {
                if t.live.dom().contains(w) {
                    let c2 = c.push(w);
                    assert(!c.contains(w));
                    assert forall|x: u32| c2.contains(x) <==> c.contains(x) || x == w by {
                        if c.contains(x) {
                            let i = choose|i: int| 0 <= i < c.len() && c[i] == x;
                            assert(c2[i] == x);
                        }
                        assert(c2[c.len() as int] == w);
                        if c2.contains(x) {
                            let i = choose|i: int| 0 <= i < c2.len() && c2[i] == x;
                            if i < c.len() {
                                assert(c[i] == x);
                            }
                        }
                    }
                    assert(c2.no_duplicates()) by {
                        assert forall|i: int, j: int| 0 <= i < j < c2.len() implies c2[i]
                            != c2[j] by {
                            assert(c.contains(c[i]));
                        }
                    }
                }
            },
            LedgerOp::Expire(now, horizon) => {
                sweep_classifies_the_old(t, now, horizon);
                let lost = t.lost(now, horizon);
                let c2 = c + lost;
                assert forall|x: u32| c2.contains(x) <==> c.contains(x) || lost.contains(x) by {
                    if c.contains(x) {
                        let i = choose|i: int| 0 <= i < c.len() && c[i] == x;
                        assert(c2[i] == x);
                    }
                    if lost.contains(x) {
                        let i = choose|i: int| 0 <= i < lost.len() && lost[i] == x;
                        assert(c2[c.len() + i] == x);
                    }
                    if c2.contains(x) {
                        let i = choose|i: int| 0 <= i < c2.len() && c2[i] == x;
                        if i < c.len() {
                            assert(c[i] == x);
                        } else {
                            assert(lost[i - c.len()] == x);
                        }
                    }
                }
                assert(c2.no_duplicates()) by {
                    assert forall|i: int, j: int| 0 <= i < j < c2.len() implies c2[i]
                        != c2[j] by {
                        if i < c.len() && j >= c.len() {
                            assert(c.contains(c[i]));
                            assert(lost.contains(lost[j - c.len()]));
                        } else if i >= c.len() {
                            assert(lost[i - c.len()] != lost[j - c.len()]);
                        }
                    }
                }
            },
        }
    }
}

impl LedgerView {
    /// Nothing was recorded yet.
    pub open spec fn is_new(self) -> bool {
        &&& self.live == Map::<u32, (Instant, Transmission)>::empty()
        &&& self.order == Seq::<u32>::empty()
        &&& self.tombs == Map::<u32, Transmission>::empty()
        &&& self.tomb_order == Seq::<u32>::empty()
    }

    /// No number is both outstanding and declared lost.
    pub open spec fn is_apart(self) -> bool {
        forall|w: u32|
            !(#[trigger] self.live.dom().contains(w) && self.tombs.dom().contains(w))
    }

    /// Well formed, with every number in order once and either outstanding or
    /// declared lost.
    pub open spec fn is_orderly(self) -> bool {
        self.wf() && self.is_apart() && self.order.no_duplicates()
    }

    /// With one more outstanding.
    spec fn joined(self, w: u32, entry: (Instant, Transmission)) -> LedgerView {
        LedgerView { live: self.live.insert(w, entry), order: self.order.push(w), ..self }
    }

    /// The order with a number at the end and nowhere else.
    spec fn listed(self, w: u32) -> Seq<u32> {
        (if self.live.dom().contains(w) {
            self.order.filter(other_than(w))
        } else {
            self.order
        }).push(w)
    }

    /// The place of the earliest recorded number that is outstanding.
    pub open spec fn earliest(self) -> int
        decreases self.order.len(),
    {
        if self.order.len() == 0 || self.live.dom().contains(self.order[0]) {
            0
        } else {
            1 + self.behind().earliest()
        }
    }

    /// The numbers that some operations resolved, one for each acknowledgement
    /// that found something.
    pub open spec fn answered(self, ops: Seq<LedgerOp>) -> Seq<u32>
        decreases ops.len(),
    {
        if ops.len() == 0 {
            Seq::empty()
        } else {
            let before = self.answered(ops.drop_last());
            match ops.last() {
                LedgerOp::Resolve(w) => if self.after(ops.drop_last()).resolution(w) is Some {
                    before.push(w)
                } else {
                    before
                },
                _ => before,
            }
        }
    }
}

/// The time of the last record.
pub open spec fn last_recorded(ops: Seq<LedgerOp>) -> u128
    decreases ops.len(),
{
    if ops.len() == 0 {
        0
    } else {
        match ops.last() {
            LedgerOp::Record(_, at, _) => at.nanos,
            _ => last_recorded(ops.drop_last()),
        }
    }
}

/// Transmissions are recorded at times that do not run back.
pub open spec fn in_time(ops: Seq<LedgerOp>) -> bool
    decreases ops.len(),
{
    ops.len() == 0 || (in_time(ops.drop_last()) && (ops.last() matches LedgerOp::Record(_, at, _)
        ==> last_recorded(ops.drop_last()) <= at.nanos))
}

/// Trimming a ledger that holds one record too many drops the earliest one.
proof fn trimmed_drops_the_earliest(s: LedgerView)
    requires
        s.live.dom().finite(),
        s.live_ordered(),
        s.live.dom().len() == s.capacity + 1,
    ensures
        0 <= s.earliest() < s.order.len(),
        s.live.dom().contains(s.order[s.earliest()]),
        forall|i: int| 0 <= i < s.earliest() ==> !s.live.dom().contains(#[trigger] s.order[i]),
        s.trimmed() == (LedgerView {
            live: s.live.remove(s.order[s.earliest()]),
            order: s.order.skip(s.earliest() + 1),
            stats: LedgerStats {
                capacity_evictions: emitter::one_more(s.stats.capacity_evictions),
                ..s.stats
            },
            ..s
        }),
    decreases s.order.len(),
{
    if s.order.len() == 0 {
        assert(s.live.dom() =~= Set::empty()) by {
            assert forall|w: u32| !s.live.dom().contains(w) by {
                if s.live.dom().contains(w) {
                    assert(s.order.contains(w));
                }
            }
        }
    } else if s.live.dom().contains(s.order[0]) {
        reveal_with_fuel(LedgerView::trimmed, 2);
    } else {
        let t = s.behind();
        assert(s.live.remove(s.order[0]) =~= s.live);
        assert forall|w: u32| #[trigger] t.live.dom().contains(w) implies t.order.contains(w) by {
            contains_behind(s.order, w);
        }
        trimmed_drops_the_earliest(t);
        assert(s.trimmed() == t.trimmed());
        let k = t.earliest();
        assert(t.order[k] == s.order[k + 1]);
        assert(t.order.skip(k + 1) =~= s.order.skip(k + 2));
        assert forall|i: int| 0 <= i < k + 1 implies !s.live.dom().contains(
            #[trigger] s.order[i],
        ) by {
            if i > 0 {
                assert(t.order[i - 1] == s.order[i]);
            }
        }
    }
}

impl LedgerView {
    /// The number that a full ledger drops when this one is added: the
    /// earliest recorded one that is outstanding.
    pub open spec fn dropped_for(self, wire_seq: u32) -> u32 {
        if self.capacity == 0 {
            wire_seq
        } else {
            self.order[self.earliest()]
        }
    }

    /// Nothing is recorded again after it was acknowledged or declared lost.
    pub open spec fn numbers_well(self, ops: Seq<LedgerOp>) -> bool
        decreases ops.len(),
    {
        ops.len() == 0 || (self.numbers_well(ops.drop_last()) && (ops.last() matches LedgerOp::Record(
            w,
            _,
            _,
        ) ==> self.is_free(ops.drop_last(), w)))
    }

    /// This number can be recorded after some operations: it is outstanding,
    /// or was neither acknowledged nor declared lost.
    pub open spec fn is_free(self, ops: Seq<LedgerOp>, w: u32) -> bool {
        self.after(ops).live.dom().contains(w) || !self.classified(ops).contains(w)
    }
}

/// As long as no number is recorded again after it was acknowledged or
/// declared lost, every number is in order once, none is both outstanding and
/// declared lost, the ledger stays within its capacity, and a number that can
/// be recorded is outstanding or not known at all.
pub proof fn recording_stays_orderly(s: LedgerView, ops: Seq<LedgerOp>)
    requires
        s.is_new(),
        s.numbers_well(ops),
    ensures
        s.after(ops).is_orderly(),
        s.after(ops).capacity == s.capacity,
        s.after(ops).live.dom().len() <= s.capacity,
        forall|w: u32| #[trigger]
            s.is_free(ops, w) ==> (s.after(ops).live.dom().contains(w) || !s.after(
                ops,
            ).order.contains(w)) && !s.after(ops).tombs.dom().contains(w),
    decreases ops.len(),
{
    stays_accounted(s, ops);
    let t = s.after(ops);
    assert forall|w: u32| #[trigger] s.is_free(ops, w) implies (t.live.dom().contains(w)
        || !t.order.contains(w)) && !t.tombs.dom().contains(w) by {
        if t.tombs.dom().contains(w) {
            assert(!(t.live.dom().contains(w) && t.tombs.dom().contains(w)));
        }
    }
}

/// What is in order and not outstanding was classified, as was what is
/// declared lost.
proof fn stays_accounted(s: LedgerView, ops: Seq<LedgerOp>)
    requires
        s.is_new(),
        s.numbers_well(ops),
    ensures
        s.after(ops).is_orderly(),
        s.after(ops).capacity == s.capacity,
        forall|w: u32| #[trigger]
            s.after(ops).order.contains(w) ==> s.after(ops).live.dom().contains(w) || s.classified(
                ops,
            ).contains(w),
        forall|w: u32| #[trigger]
            s.after(ops).tombs.dom().contains(w) ==> s.classified(ops).contains(w),
    decreases ops.len(),
{
    if ops.len() == 0 {
        assert(s.live.dom() =~= Set::empty());
        assert(s.tombs.dom() =~= Set::empty());
    } else {
        let init = ops.drop_last();
        stays_accounted(s, init);
        let t = s.after(init);
        let u = s.after(ops);
        let c = s.classified(init);
        let c2 = s.classified(ops);
        assert forall|x: u32| #[trigger] c.contains(x) implies c2.contains(x) by {
            let i = choose|i: int| 0 <= i < c.len() && c[i] == x;
            assert(c2[i] == x);
        }
        match ops.last() {
            LedgerOp::Record(w, at, tx) => {
                assert(s.is_free(init, w));
                assert(t.live.dom().contains(w) || !t.order.contains(w));
                recorded_wf(t, w, at, tx);
                recorded_order(t, w, at, tx);
                recorded_order_is_accounted(t, w, at, tx);
                assert forall|x: u32|
                    !(#[trigger] u.live.dom().contains(x) && u.tombs.dom().contains(x)) by {
                    assert(!(t.live.dom().contains(x) && t.tombs.dom().contains(x)));
                }
                assert forall|x: u32| #[trigger] u.order.contains(x) implies u.live.dom().contains(
                    x,
                ) || c2.contains(x) by {
                    if !u.live.dom().contains(x) {
                        assert(t.order.contains(x));
                    }
                }
            },
            LedgerOp::Resolve(w) => {
                if t.live.dom().contains(w) {
                    assert(c2[c.len() as int] == w);
                }
                assert forall|x: u32|
                    !(#[trigger] u.live.dom().contains(x) && u.tombs.dom().contains(x)) by {
                    assert(!(t.live.dom().contains(x) && t.tombs.dom().contains(x)));
                }
                assert forall|x: u32| #[trigger] u.order.contains(x) implies u.live.dom().contains(
                    x,
                ) || c2.contains(x) by {
                    assert(t.order.contains(x));
                }
            },
            LedgerOp::Expire(now, horizon) => {
                sweep_classifies_the_old(t, now, horizon);
                sweep_buries_the_lost(t, now, horizon);
                let lost = t.lost(now, horizon);
                assert forall|x: u32| #[trigger] lost.contains(x) implies c2.contains(x) by {
                    let i = choose|i: int| 0 <= i < lost.len() && lost[i] == x;
                    assert(c2[c.len() + i] == x);
                }
                assert forall|x: u32|
                    !(#[trigger] u.live.dom().contains(x) && u.tombs.dom().contains(x)) by {
                    assert(!(t.live.dom().contains(x) && t.tombs.dom().contains(x)));
                    if u.tombs.dom().contains(x) && lost.contains(x) {
                        assert(!u.live.dom().contains(x));
                    }
                }
                assert forall|x: u32| #[trigger] u.order.contains(x) implies u.live.dom().contains(
                    x,
                ) || c2.contains(x) by {
                    assert(t.order.contains(x));
                }
            },
        }
    }
}

/// Of the numbers that stay in order, those outstanding stay so.
proof fn recorded_order_is_accounted(s: LedgerView, wire_seq: u32, at: Instant, tx: Transmission)
    requires
        s.order.no_duplicates(),
        s.live.dom().contains(wire_seq) || !s.order.contains(wire_seq),
    ensures
        forall|w: u32| #[trigger]
            s.recorded(wire_seq, at, tx).order.contains(w) ==> (s.recorded(
                wire_seq,
                at,
                tx,
            ).live.dom().contains(w) <==> w == wire_seq || s.live.dom().contains(w)),
{
    let replaced = s.live.dom().contains(wire_seq);
    let full = LedgerView {
        live: s.live.insert(wire_seq, (at, tx)),
        order: s.listed(wire_seq),
        stats: (if replaced {
            LedgerStats {
                capacity_evictions: emitter::one_more(s.stats.capacity_evictions),
                ..s.stats
            }
        } else {
            s.stats
        }),
        ..s
    };
    listed_once(s, wire_seq);
    trimmed_keeps_the_rest(full);
    assert(s.recorded(wire_seq, at, tx) == full.trimmed());
}

/// A number at the end of the order is there once.
proof fn listed_once(s: LedgerView, wire_seq: u32)
    requires
        s.order.no_duplicates(),
        s.live.dom().contains(wire_seq) || !s.order.contains(wire_seq),
    ensures
        s.listed(wire_seq).no_duplicates(),
        forall|w: u32| #[trigger]
            s.listed(wire_seq).contains(w) ==> s.order.contains(w) || w == wire_seq,
{
    let kept = if s.live.dom().contains(wire_seq) {
        s.order.filter(other_than(wire_seq))
    } else {
        s.order
    };
    assert(kept.no_duplicates() && !kept.contains(wire_seq) && forall|w: u32| #[trigger]
        kept.contains(w) ==> s.order.contains(w)) by {
        if s.live.dom().contains(wire_seq) {
            filter_no_duplicates(s.order, other_than(wire_seq));
            assert forall|w: u32| #[trigger] kept.contains(w) implies s.order.contains(w) && w
                != wire_seq by {
                let i = choose|i: int| 0 <= i < kept.len() && kept[i] == w;
                seqs::filter_member(s.order, other_than(wire_seq), i);
            }
        }
    }
    pushed_once(kept, wire_seq);
}

/// Trimming drops no record whose number stays in order.
proof fn trimmed_keeps_the_rest(s: LedgerView)
    requires
        s.order.no_duplicates(),
    ensures
        forall|w: u32| #[trigger]
            s.trimmed().order.contains(w) ==> s.order.contains(w) && (
            s.trimmed().live.dom().contains(w) <==> s.live.dom().contains(w)),
    decreases s.order.len(),
{
    if s.live.dom().len() > s.capacity && s.order.len() > 0 {
        let oldest = s.order[0];
        let t = LedgerView {
            live: s.live.remove(oldest),
            order: s.order.skip(1),
            stats: (if s.live.dom().contains(oldest) {
                LedgerStats {
                    capacity_evictions: emitter::one_more(s.stats.capacity_evictions),
                    ..s.stats
                }
            } else {
                s.stats
            }),
            ..s
        };
        assert(t.order.no_duplicates()) by {
            assert forall|i: int, j: int| 0 <= i < j < t.order.len() implies t.order[i]
                != t.order[j] by {
                assert(t.order[i] == s.order[i + 1] && t.order[j] == s.order[j + 1]);
            }
        }
        trimmed_keeps_the_rest(t);
        assert(s.trimmed() == t.trimmed());
        assert forall|w: u32| #[trigger] s.trimmed().order.contains(w) implies s.order.contains(w)
            && (s.trimmed().live.dom().contains(w) <==> s.live.dom().contains(w)) by {
            assert(t.order.contains(w));
            let i = choose|i: int| 0 <= i < t.order.len() && t.order[i] == w;
            assert(s.order[i + 1] == w);
            assert(w != oldest);
        }
    }
}

/// What recording does while no number is recorded again after it was
/// acknowledged or declared lost: a number that is outstanding gets the new
/// record; another one is added, and with it the ledger holds one more, or as
/// many as it can.  A full one drops the earliest recorded number that is
/// outstanding, which nothing classifies: an acknowledgement of it finds
/// nothing.  Each record that is dropped or replaced is counted, and no other
/// counter and no tombstone changes.
pub proof fn full_ledger_drops_the_earliest(
    s: LedgerView,
    wire_seq: u32,
    at: Instant,
    tx: Transmission,
)
    requires
        s.is_orderly(),
        s.live.dom().contains(wire_seq) || !s.order.contains(wire_seq),
        !s.tombs.dom().contains(wire_seq),
    ensures
        ({
            let after = s.recorded(wire_seq, at, tx);
            let dropped = s.dropped_for(wire_seq);
            let full = s.live.dom().len() == s.capacity;
            let fresh = !s.live.dom().contains(wire_seq);
            &&& after.is_orderly()
            &&& s.capacity > 0 ==> after.live.dom().contains(wire_seq) && after.live[wire_seq] == (
                at,
                tx,
            )
            &&& after.live == (if fresh && full {
                s.live.insert(wire_seq, (at, tx)).remove(dropped)
            } else {
                s.live.insert(wire_seq, (at, tx))
            })
            &&& after.live.dom().len() == (if fresh && !full {
                s.live.dom().len() + 1
            } else {
                s.live.dom().len()
            })
            &&& fresh && full ==> after.resolution(dropped) is None
            &&& fresh && full && s.capacity > 0 ==> s.live.dom().contains(dropped) && (forall|i: int|
                0 <= i < s.earliest() ==> !s.live.dom().contains(#[trigger] s.order[i]))
            &&& after.tombs == s.tombs
            &&& after.tomb_order == s.tomb_order
            &&& after.stats == (if fresh && !full {
                s.stats
            } else {
                LedgerStats {
                    capacity_evictions: emitter::one_more(s.stats.capacity_evictions),
                    ..s.stats
                }
            })
        }),
{
    recorded_wf(s, wire_seq, at, tx);
    recorded_order(s, wire_seq, at, tx);
    let replaced = s.live.dom().contains(wire_seq);
    let live = s.live.insert(wire_seq, (at, tx));
    if replaced {
        assert(live.dom() =~= s.live.dom());
    } else if s.live.dom().len() == s.capacity {
        let t = s.joined(wire_seq, (at, tx));
        assert forall|w: u32| #[trigger] t.live.dom().contains(w) implies t.order.contains(w) by {
            if w == wire_seq {
                assert(t.order[s.order.len() as int] == w);
            } else {
                let i = choose|i: int| 0 <= i < s.order.len() && s.order[i] == w;
                assert(t.order[i] == w);
            }
        }
        trimmed_drops_the_earliest(t);
        if s.capacity > 0 {
            earliest_with_one_more(s, wire_seq, (at, tx));
        } else {
            let w = t.order[t.earliest()];
            assert(s.live.dom() =~= Set::empty());
            assert(t.live.dom().contains(w));
        }
        assert(s.recorded(wire_seq, at, tx) == t.trimmed());
    }
}

/// A number that is added comes behind the earliest.
proof fn earliest_with_one_more(s: LedgerView, w: u32, entry: (Instant, Transmission))
    requires
        s.live_ordered(),
        s.live.dom().finite(),
        s.live.dom().len() > 0,
        !s.order.contains(w),
    ensures
        0 <= s.earliest() < s.order.len(),
        s.live.dom().contains(s.order[s.earliest()]),
        s.joined(w, entry).earliest() == s.earliest(),
        forall|i: int| 0 <= i < s.earliest() ==> !s.live.dom().contains(#[trigger] s.order[i]),
    decreases s.order.len(),
{
    let t = s.joined(w, entry);
    let x = s.live.dom().choose();
    assert(s.live.dom().contains(x));
    assert(s.order.contains(x));
    assert(t.order[0] == s.order[0]);
    assert(s.order.contains(s.order[0]));
    if !s.live.dom().contains(s.order[0]) {
        let u = s.behind();
        assert forall|y: u32| #[trigger] u.live.dom().contains(y) implies u.order.contains(y) by {
            contains_behind(s.order, y);
        }
        assert(!u.order.contains(w)) by {
            if u.order.contains(w) {
                let i = choose|i: int| 0 <= i < u.order.len() && u.order[i] == w;
                assert(s.order[i + 1] == w);
            }
        }
        earliest_with_one_more(u, w, entry);
        assert(t.behind().order =~= u.order.push(w));
        assert(t.behind() == u.joined(w, entry));
        let k = u.earliest();
        assert(u.order[k] == s.order[k + 1]);
        assert forall|i: int| 0 <= i < k + 1 implies !s.live.dom().contains(
            #[trigger] s.order[i],
        ) by {
            if i > 0 {
                assert(u.order[i - 1] == s.order[i]);
            }
        }
    }
}

/// Trimming drops numbers from the front and no others.
proof fn trimmed_is_behind(s: LedgerView)
    ensures
        exists|k: int| 0 <= k <= s.order.len() && s.trimmed().order == #[trigger] s.order.skip(k),
        forall|w: u32| #[trigger]
            s.trimmed().live.dom().contains(w) ==> s.live.dom().contains(w)
                && s.trimmed().live[w] == s.live[w],
    decreases s.order.len(),
{
    if s.live.dom().len() <= s.capacity || s.order.len() == 0 {
        assert(s.order.skip(0) =~= s.order);
    } else {
        let oldest = s.order[0];
        let t = LedgerView {
            live: s.live.remove(oldest),
            order: s.order.skip(1),
            stats: (if s.live.dom().contains(oldest) {
                LedgerStats {
                    capacity_evictions: emitter::one_more(s.stats.capacity_evictions),
                    ..s.stats
                }
            } else {
                s.stats
            }),
            ..s
        };
        trimmed_is_behind(t);
        let k = choose|k: int|
            0 <= k <= t.order.len() && t.trimmed().order == #[trigger] t.order.skip(k);
        assert(t.order.skip(k) =~= s.order.skip(k + 1));
        assert(s.trimmed() == t.trimmed());
    }
}

/// What a record makes of the order and of what is outstanding.
proof fn recorded_order(s: LedgerView, wire_seq: u32, at: Instant, tx: Transmission)
    requires
        s.order.no_duplicates(),
        s.live.dom().contains(wire_seq) || !s.order.contains(wire_seq),
    ensures
        s.recorded(wire_seq, at, tx).order.no_duplicates(),
        forall|w: u32| #[trigger]
            s.recorded(wire_seq, at, tx).order.contains(w) ==> s.order.contains(w) || w
                == wire_seq,
        forall|w: u32| #[trigger]
            s.recorded(wire_seq, at, tx).live.dom().contains(w) ==> (if w == wire_seq {
                s.recorded(wire_seq, at, tx).live[w] == (at, tx)
            } else {
                s.live.dom().contains(w) && s.recorded(wire_seq, at, tx).live[w] == s.live[w]
            }),
        exists|k: int|
            0 <= k <= s.listed(wire_seq).len() && s.recorded(wire_seq, at, tx).order
                == #[trigger] s.listed(wire_seq).skip(k),
{
    let replaced = s.live.dom().contains(wire_seq);
    let order = s.listed(wire_seq);
    let full = LedgerView {
        live: s.live.insert(wire_seq, (at, tx)),
        order,
        stats: (if replaced {
            LedgerStats {
                capacity_evictions: emitter::one_more(s.stats.capacity_evictions),
                ..s.stats
            }
        } else {
            s.stats
        }),
        ..s
    };
    listed_once(s, wire_seq);
    trimmed_is_behind(full);
    let k = choose|k: int|
        0 <= k <= full.order.len() && full.trimmed().order == #[trigger] full.order.skip(k);
    let left = order.skip(k);
    assert(left.no_duplicates()) by {
        assert forall|i: int, j: int| 0 <= i < j < left.len() implies left[i] != left[j] by {
            assert(left[i] == order[i + k] && left[j] == order[j + k]);
        }
    }
    assert forall|w: u32| #[trigger] left.contains(w) implies s.order.contains(w) || w
        == wire_seq by {
        let i = choose|i: int| 0 <= i < left.len() && left[i] == w;
        assert(order[i + k] == w);
        assert(order.contains(w));
    }
    assert(s.recorded(wire_seq, at, tx).order == s.listed(wire_seq).skip(k));
}

/// A filter of distinct numbers gives distinct numbers.
proof fn filter_no_duplicates(s: Seq<u32>, p: spec_fn(u32) -> bool)
    requires
        s.no_duplicates(),
    ensures
        s.filter(p).no_duplicates(),
    decreases s.len(),
{
    if s.len() == 0 {
        assert(s =~= Seq::empty());
        seqs::filter_empty(p);
    } else {
        let init = s.drop_last();
        filter_no_duplicates(init, p);
        seqs::filter_last(s, p);
        let f = init.filter(p);
        assert forall|i: int, j: int| 0 <= i < j < s.filter(p).len() implies s.filter(p)[i]
            != s.filter(p)[j] by {
            if j == f.len() {
                seqs::filter_member(init, p, i);
                let k = choose|k: int| 0 <= k < init.len() && init[k] == f[i];
                assert(s[k] == f[i] && s[s.len() - 1] == s.filter(p)[j]);
            }
        }
    }
}

/// A sweep buries what it declares lost, and nothing else.
proof fn sweep_buries_the_lost(s: LedgerView, now: Instant, horizon: Duration)
    requires
        s.wf(),
        s.order.no_duplicates(),
    ensures
        forall|w: u32| #[trigger]
            s.expired(now, horizon).tombs.dom().contains(w) ==> s.tombs.dom().contains(w)
                || s.lost(now, horizon).contains(w),
        s.expired(now, horizon).order.no_duplicates(),
        forall|w: u32| #[trigger]
            s.expired(now, horizon).order.contains(w) ==> s.order.contains(w),
    decreases s.order.len(),
{
    if s.order.len() > 0 && !s.young(now, horizon) {
        let w0 = s.order[0];
        let cached = s.live.dom().contains(w0);
        let t = if cached {
            s.behind().buried(w0)
        } else {
            s.behind()
        };
        if cached {
            buried_wf(s);
            newest_tombs_are_tombs(
                s.tombs.insert(w0, s.live[w0].1),
                s.tomb_order.push(w0),
                s.capacity,
            );
        } else {
            behind_wf(s);
        }
        assert(t.order.no_duplicates()) by {
            assert forall|i: int, j: int| 0 <= i < j < t.order.len() implies t.order[i]
                != t.order[j] by {
                assert(t.order[i] == s.order[i + 1] && t.order[j] == s.order[j + 1]);
            }
        }
        sweep_buries_the_lost(t, now, horizon);
        let rest = t.lost(now, horizon);
        let lost = s.lost(now, horizon);
        assert forall|w: u32| #[trigger] s.expired(now, horizon).tombs.dom().contains(w) implies
            s.tombs.dom().contains(w) || lost.contains(w) by {
            if rest.contains(w) {
                let i = choose|i: int| 0 <= i < rest.len() && rest[i] == w;
                if cached {
                    assert(lost[i + 1] == w);
                }
            } else if cached && w == w0 {
                assert(lost[0] == w0);
            }
        }
        assert forall|w: u32| #[trigger]
            s.expired(now, horizon).order.contains(w) implies s.order.contains(w) by {
            assert(t.order.contains(w));
            let i = choose|i: int| 0 <= i < t.order.len() && t.order[i] == w;
            assert(s.order[i + 1] == w);
        }
    }
}

/// Dropping the oldest tombstones adds none.
proof fn newest_tombs_are_tombs(tombs: Map<u32, Transmission>, order: Seq<u32>, capacity: nat)
    ensures
        forall|w: u32| #[trigger]
            newest_tombs(tombs, order, capacity).0.dom().contains(w) ==> tombs.dom().contains(w),
    decreases order.len(),
{
    if tombs.dom().len() > capacity && order.len() > 0 {
        let rest = tombs.remove(order[0]);
        newest_tombs_are_tombs(rest, order.skip(1), capacity);
        assert forall|w: u32| #[trigger]
            newest_tombs(tombs, order, capacity).0.dom().contains(
                w,
            ) implies tombs.dom().contains(w) by {
            assert(newest_tombs(rest, order.skip(1), capacity).0.dom().contains(w));
        }
    }
}

/// The outstanding transmissions that are older than the horizon.
pub open spec fn is_old(s: LedgerView, now: Instant, horizon: Duration) -> spec_fn(u32) -> bool {
    |w: u32| s.live.dom().contains(w) && age(now, s.live[w].0) > horizon.nanos
}

/// A sweep declares lost exactly what is outstanding for longer than the
/// horizon, in the order of recording; so many fewer are outstanding, and
/// there are never more tombstones than the capacity.
pub proof fn sweep_finds_all_the_old(s: LedgerView, now: Instant, horizon: Duration)
    requires
        s.is_orderly(),
        in_send_order(s),
    ensures
        s.lost(now, horizon) == s.order.filter(is_old(s, now, horizon)),
        s.expired(now, horizon).live.dom().len() + s.lost(now, horizon).len()
            == s.live.dom().len(),
        s.expired(now, horizon).tombs.dom().len() <= s.capacity,
        s.expired(now, horizon).stats == s.stats,
    decreases s.order.len(),
{
    let old_s = is_old(s, now, horizon);
    sweep_classifies_the_old(s, now, horizon);
    if s.order.len() == 0 {
        assert(s.order =~= Seq::empty());
        seqs::filter_empty(old_s);
    } else if s.young(now, horizon) {
        assert forall|i: int| 0 <= i < s.order.len() implies !old_s(#[trigger] s.order[i]) by {
            if s.live.dom().contains(s.order[i]) {
                assert(s.live[s.order[0]].0.nanos <= s.live[s.order[i]].0.nanos);
            }
        }
        seqs::filter_none(s.order, old_s);
    } else {
        let w0 = s.order[0];
        let cached = s.live.dom().contains(w0);
        let t = if cached {
            s.behind().buried(w0)
        } else {
            s.behind()
        };
        if cached {
            buried_wf(s);
            newest_tombs_are_tombs(
                s.tombs.insert(w0, s.live[w0].1),
                s.tomb_order.push(w0),
                s.capacity,
            );
        } else {
            behind_wf(s);
        }
        assert(t.order.no_duplicates()) by {
            assert forall|i: int, j: int| 0 <= i < j < t.order.len() implies t.order[i]
                != t.order[j] by {
                assert(t.order[i] == s.order[i + 1] && t.order[j] == s.order[j + 1]);
            }
        }
        assert forall|i: int, j: int|
            0 <= i <= j < t.order.len() && t.live.dom().contains(t.order[i])
                && t.live.dom().contains(t.order[j]) implies t.live[
            #[trigger] t.order[i]].0.nanos <= t.live[#[trigger] t.order[j]].0.nanos by {
            assert(t.order[i] == s.order[i + 1]);
            assert(t.order[j] == s.order[j + 1]);
        }
        assert(t.is_apart()) by {
            assert forall|w: u32|
                !(#[trigger] t.live.dom().contains(w) && t.tombs.dom().contains(w)) by {
                assert(!(s.live.dom().contains(w) && s.tombs.dom().contains(w)));
            }
        }
        sweep_finds_all_the_old(t, now, horizon);
        seqs::filter_first(s.order, old_s);
        let rest = s.order.skip(1);
        let old_t = is_old(t, now, horizon);
        assert(t.order =~= rest);
        assert forall|i: int| 0 <= i < rest.len() implies old_s(#[trigger] rest[i]) == old_t(
            rest[i],
        ) by {
            assert(rest[i] == s.order[i + 1]);
            assert(s.order[i + 1] != w0);
        }
        seqs::filter_agrees(rest, old_s, old_t);
    }
}

/// Across any interleaving of recording, resolving and expiring, with every
/// number recorded once: no number is both outstanding and declared lost, the
/// ledger stays within its capacity, a number is classified at most once and
/// is outstanding no longer then, and an acknowledgement of a number is
/// answered at most once.  If the times of recording do not run back, the
/// order is that of sending.
pub proof fn a_number_resolves_at_most_once(s: LedgerView, ops: Seq<LedgerOp>)
    requires
        s.is_new(),
        numbers_of(ops).no_duplicates(),
    ensures
        s.after(ops).is_orderly(),
        s.after(ops).capacity == s.capacity,
        s.answered(ops).no_duplicates(),
        s.classified(ops).no_duplicates(),
        forall|w: u32| #[trigger]
            s.answered(ops).contains(w) ==> numbers_of(ops).contains(w) && s.after(ops).resolution(
                w,
            ) is None,
        forall|w: u32| #[trigger]
            s.classified(ops).contains(w) ==> numbers_of(ops).contains(w) && !s.after(
                ops,
            ).live.dom().contains(w),
        forall|w: u32| #[trigger]
            s.after(ops).order.contains(w) ==> numbers_of(ops).contains(w),
        forall|w: u32| #[trigger]
            s.after(ops).tombs.dom().contains(w) ==> numbers_of(ops).contains(w),
        in_time(ops) ==> in_send_order(s.after(ops)),
        in_time(ops) ==> forall|w: u32| #[trigger]
            s.after(ops).live.dom().contains(w) ==> s.after(ops).live[w].0.nanos <= last_recorded(
                ops,
            ),
    decreases ops.len(),
{
    if ops.len() == 0 {
        assert(s.live.dom() =~= Set::empty());
        assert(s.tombs.dom() =~= Set::empty());
    } else {
        let init = ops.drop_last();
        let before = numbers_of(init);
        let all = numbers_of(ops);
        assert(before.no_duplicates()) by {
            assert forall|i: int, j: int| 0 <= i < j < before.len() implies before[i]
                != before[j] by {
                assert(all[i] == before[i] && all[j] == before[j]);
            }
        }
        assert forall|w: u32| #[trigger] before.contains(w) implies all.contains(w) by {
            let i = choose|i: int| 0 <= i < before.len() && before[i] == w;
            assert(all[i] == w);
        }
        a_number_resolves_at_most_once(s, init);
        assert(ops =~= init.push(ops.last()));
        match ops.last() {
            LedgerOp::Record(w, at, tx) => {
                record_step(s, init, w, at, tx);
            },
            LedgerOp::Resolve(w) => {
                resolve_step(s, init, w);
            },
            LedgerOp::Expire(now, horizon) => {
                expire_step(s, init, now, horizon);
            },
        }
    }
}

/// What holds of a history with every number recorded once.
spec fn holds(s: LedgerView, ops: Seq<LedgerOp>) -> bool {
    &&& s.after(ops).is_orderly()
    &&& s.after(ops).capacity == s.capacity
    &&& s.answered(ops).no_duplicates()
    &&& s.classified(ops).no_duplicates()
    &&& forall|w: u32| #[trigger]
        s.answered(ops).contains(w) ==> numbers_of(ops).contains(w) && s.after(ops).resolution(
            w,
        ) is None
    &&& forall|w: u32| #[trigger]
        s.classified(ops).contains(w) ==> numbers_of(ops).contains(w) && !s.after(
            ops,
        ).live.dom().contains(w)
    &&& forall|w: u32| #[trigger]
        s.after(ops).order.contains(w) ==> numbers_of(ops).contains(w)
    &&& forall|w: u32| #[trigger]
        s.after(ops).tombs.dom().contains(w) ==> numbers_of(ops).contains(w)
    &&& in_time(ops) ==> in_send_order(s.after(ops))
    &&& in_time(ops) ==> forall|w: u32| #[trigger]
        s.after(ops).live.dom().contains(w) ==> s.after(ops).live[w].0.nanos <= last_recorded(ops)
}

/// A new number keeps what holds of a history.
proof fn record_step(
    s: LedgerView,
    init: Seq<LedgerOp>,
    w: u32,
    at: Instant,
    tx: Transmission,
)
    requires
        holds(s, init),
        numbers_of(init.push(LedgerOp::Record(w, at, tx))).no_duplicates(),
    ensures
        holds(s, init.push(LedgerOp::Record(w, at, tx))),
{
    let ops = init.push(LedgerOp::Record(w, at, tx));
    assert(ops.drop_last() =~= init);
    let t = s.after(init);
    let before = numbers_of(init);
    let all = numbers_of(ops);
    assert(all == before.push(w));
    assert(!before.contains(w)) by {
        if before.contains(w) {
            let i = choose|i: int| 0 <= i < before.len() && before[i] == w;
            assert(all[i] == w && all[before.len() as int] == w);
        }
    }
    assert forall|x: u32| before.contains(x) || x == w implies #[trigger] all.contains(x) by {
        if before.contains(x) {
            let i = choose|i: int| 0 <= i < before.len() && before[i] == x;
            assert(all[i] == x);
        }
        assert(all[before.len() as int] == w);
    }
    assert(!t.order.contains(w));
    assert(!t.live.dom().contains(w));
    recorded_wf(t, w, at, tx);
    recorded_order(t, w, at, tx);
    let u = s.after(ops);
    assert(u == t.recorded(w, at, tx));
    assert forall|x: u32| !(#[trigger] u.live.dom().contains(x) && u.tombs.dom().contains(x)) by {
        assert(!(t.live.dom().contains(x) && t.tombs.dom().contains(x)));
        assert(t.tombs.dom().contains(w) ==> before.contains(w));
    }
    assert forall|x: u32| #[trigger] s.answered(ops).contains(x) implies all.contains(x)
        && u.resolution(x) is None by {
        assert(s.answered(init).contains(x));
    }
    assert forall|x: u32| #[trigger] s.classified(ops).contains(x) implies all.contains(x)
        && !u.live.dom().contains(x) by {
        assert(s.classified(init).contains(x));
    }
    if in_time(ops) {
        let pushed = t.order.push(w);
        assert(t.listed(w) == pushed);
        let k = choose|k: int|
            0 <= k <= t.listed(w).len() && u.order == #[trigger] t.listed(w).skip(k);
        assert forall|i: int, j: int|
            0 <= i <= j < u.order.len() && u.live.dom().contains(u.order[i])
                && u.live.dom().contains(u.order[j]) implies u.live[
            #[trigger] u.order[i]].0.nanos <= u.live[#[trigger] u.order[j]].0.nanos by {
            assert(u.order[i] == pushed[i + k] && u.order[j] == pushed[j + k]);
            if j + k < t.order.len() {
                assert(u.order[i] == t.order[i + k] && u.order[j] == t.order[j + k]);
                assert(t.order.contains(t.order[i + k]) && t.order.contains(t.order[j + k]));
            } else if i + k < t.order.len() {
                assert(u.order[i] == t.order[i + k]);
                assert(t.order.contains(t.order[i + k]));
                assert(t.live[u.order[i]].0.nanos <= last_recorded(init));
            }
        }
    }
}

/// An acknowledgement keeps what holds of a history.
proof fn resolve_step(s: LedgerView, init: Seq<LedgerOp>, w: u32)
    requires
        holds(s, init),
    ensures
        holds(s, init.push(LedgerOp::Resolve(w))),
{
    let ops = init.push(LedgerOp::Resolve(w));
    assert(ops.drop_last() =~= init);
    let t = s.after(init);
    let u = s.after(ops);
    let c = s.classified(init);
    let a = s.answered(init);
    assert(u == t.resolved(w));
    assert(t.live.dom().contains(w) ==> t.order.contains(w));
    if t.live.dom().contains(w) {
        pushed_once(c, w);
    }
    if t.resolution(w) is Some {
        pushed_once(a, w);
    }
    assert forall|x: u32| !(#[trigger] u.live.dom().contains(x) && u.tombs.dom().contains(x)) by {
        assert(!(t.live.dom().contains(x) && t.tombs.dom().contains(x)));
    }
    assert forall|x: u32| #[trigger] s.answered(ops).contains(x) implies numbers_of(ops).contains(x)
        && u.resolution(x) is None by {
        assert(!(t.live.dom().contains(x) && t.tombs.dom().contains(x)));
    }
    if in_time(ops) {
        assert forall|i: int, j: int|
            0 <= i <= j < u.order.len() && u.live.dom().contains(u.order[i])
                && u.live.dom().contains(u.order[j]) implies u.live[
            #[trigger] u.order[i]].0.nanos <= u.live[#[trigger] u.order[j]].0.nanos by {
            assert(u.order[i] == t.order[i] && u.order[j] == t.order[j]);
        }
    }
}

/// A number that was not in a list of distinct numbers can be added.
proof fn pushed_once(c: Seq<u32>, w: u32)
    requires
        c.no_duplicates(),
        !c.contains(w),
    ensures
        c.push(w).no_duplicates(),
        forall|x: u32| #[trigger] c.push(w).contains(x) <==> c.contains(x) || x == w,
{
    let d = c.push(w);
    assert forall|x: u32| #[trigger] d.contains(x) <==> c.contains(x) || x == w by {
        if c.contains(x) {
            let i = choose|i: int| 0 <= i < c.len() && c[i] == x;
            assert(d[i] == x);
        }
        assert(d[c.len() as int] == w);
        if d.contains(x) {
            let i = choose|i: int| 0 <= i < d.len() && d[i] == x;
            if i < c.len() {
                assert(c[i] == x);
            }
        }
    }
    assert forall|i: int, j: int| 0 <= i < j < d.len() implies d[i] != d[j] by {
        assert(c.contains(c[i]));
    }
}

/// A sweep keeps what holds of a history.
proof fn expire_step(s: LedgerView, init: Seq<LedgerOp>, now: Instant, horizon: Duration)
    requires
        holds(s, init),
    ensures
        holds(s, init.push(LedgerOp::Expire(now, horizon))),
{
    let ops = init.push(LedgerOp::Expire(now, horizon));
    assert(ops.drop_last() =~= init);
    let t = s.after(init);
    let u = s.after(ops);
    let lost = t.lost(now, horizon);
    let c = s.classified(init);
    let c2 = c + lost;
    sweep_classifies_the_old(t, now, horizon);
    sweep_buries_the_lost(t, now, horizon);
    assert(u == t.expired(now, horizon));
    assert forall|x: u32| #[trigger] c2.contains(x) implies c.contains(x) || lost.contains(x) by {
        let i = choose|i: int| 0 <= i < c2.len() && c2[i] == x;
        if i < c.len() {
            assert(c[i] == x);
        } else {
            assert(lost[i - c.len()] == x);
        }
    }
    assert(c2.no_duplicates()) by {
        assert forall|i: int, j: int| 0 <= i < j < c2.len() implies c2[i] != c2[j] by {
            if i < c.len() && j >= c.len() {
                assert(c.contains(c[i]));
                assert(lost.contains(lost[j - c.len()]));
            } else if i >= c.len() {
                assert(lost[i - c.len()] != lost[j - c.len()]);
            }
        }
    }
    assert forall|x: u32| #[trigger] lost.contains(x) implies numbers_of(init).contains(x) by {
        assert(t.live.dom().contains(x));
        assert(t.order.contains(x));
    }
    assert forall|x: u32| !(#[trigger] u.live.dom().contains(x) && u.tombs.dom().contains(x)) by {
        assert(!(t.live.dom().contains(x) && t.tombs.dom().contains(x)));
        if u.tombs.dom().contains(x) && lost.contains(x) {
            assert(!u.live.dom().contains(x));
        }
    }
    assert forall|x: u32| #[trigger] s.answered(ops).contains(x) implies numbers_of(ops).contains(x)
        && u.resolution(x) is None by {
        assert(s.answered(init).contains(x));
        assert(t.resolution(x) is None);
        if lost.contains(x) {
            assert(t.live.dom().contains(x));
        }
        assert(!u.live.dom().contains(x));
        assert(!u.tombs.dom().contains(x));
    }
    if in_time(ops) {
        sweep_keeps_send_order(t, now, horizon);
    }
}

/// A sweep keeps the order of sending.
proof fn sweep_keeps_send_order(s: LedgerView, now: Instant, horizon: Duration)
    requires
        s.wf(),
        in_send_order(s),
    ensures
        in_send_order(s.expired(now, horizon)),
    decreases s.order.len(),
{
    if s.order.len() > 0 && !s.young(now, horizon) {
        let w0 = s.order[0];
        let t = if s.live.dom().contains(w0) {
            s.behind().buried(w0)
        } else {
            s.behind()
        };
        if s.live.dom().contains(w0) {
            buried_wf(s);
        } else {
            behind_wf(s);
        }
        assert forall|i: int, j: int|
            0 <= i <= j < t.order.len() && t.live.dom().contains(t.order[i])
                && t.live.dom().contains(t.order[j]) implies t.live[
            #[trigger] t.order[i]].0.nanos <= t.live[#[trigger] t.order[j]].0.nanos by {
            assert(t.order[i] == s.order[i + 1]);
            assert(t.order[j] == s.order[j + 1]);
        }
        sweep_keeps_send_order(t, now, horizon);
    }
}

/// What an acknowledgement finds: a transmission in flight is found as
/// recorded and taken out, one given up as lost is found late and counted as
/// such, and any other number is counted as unknown.
pub proof fn an_ack_finds_its_transmission(s: LedgerView, w: u32, other: u32)
    requires
        other != w,
    ensures
        ({
            let a = s.resolved(w);
            let live = s.live.dom().contains(w);
            let late = !live && s.tombs.dom().contains(w);
            &&& live ==> s.resolution(w) == Some(Resolution::Live(s.live[w].1))
            &&& late ==> s.resolution(w) == Some(Resolution::Late(s.tombs[w]))
            &&& !live && !late ==> s.resolution(w) is None
            &&& !a.live.dom().contains(w)
            &&& late ==> !a.tombs.dom().contains(w)
            &&& a.live.dom().contains(other) == s.live.dom().contains(other)
            &&& a.tombs.dom().contains(other) == s.tombs.dom().contains(other)
            &&& s.live.dom().contains(other) ==> a.live[other] == s.live[other]
            &&& s.tombs.dom().contains(other) ==> a.tombs[other] == s.tombs[other]
            &&& live ==> a.tombs == s.tombs && a.stats == s.stats
            &&& late && s.stats.acked_after_declared_lost < u64::MAX
                ==> a.stats.acked_after_declared_lost == s.stats.acked_after_declared_lost + 1
            &&& !late ==> a.stats.acked_after_declared_lost == s.stats.acked_after_declared_lost
            &&& !live && !late && s.stats.unknown_acks < u64::MAX ==> a.stats.unknown_acks
                == s.stats.unknown_acks + 1
            &&& live || late ==> a.stats.unknown_acks == s.stats.unknown_acks
            &&& a.stats.capacity_evictions == s.stats.capacity_evictions
            &&& a.capacity == s.capacity && a.order == s.order
        }),
{
}

/// A lost transmission is remembered as it was recorded while there is room,
/// and what was remembered before stays.
pub proof fn the_lost_are_remembered(s: LedgerView, now: Instant, horizon: Duration, w: u32)
    requires
        s.wf(),
        s.tombs.dom().len() + s.order.len() <= s.capacity,
    ensures
        ({
            let a = s.expired(now, horizon);
            let lost = s.lost(now, horizon);
            &&& lost.contains(w) ==> a.tombs.dom().contains(w) && a.tombs[w] == s.live[w].1
            &&& !lost.contains(w) ==> a.tombs.dom().contains(w) == s.tombs.dom().contains(w)
            &&& !lost.contains(w) && s.tombs.dom().contains(w) ==> a.tombs[w] == s.tombs[w]
            &&& a.stats == s.stats
        }),
    decreases s.order.len(),
{
    if s.order.len() == 0 || s.young(now, horizon) {
    } else if s.live.dom().contains(s.order[0]) {
        let first = s.order[0];
        let rest = s.behind().buried(first);
        let tombs = s.tombs.insert(first, s.live[first].1);
        assert(tombs.dom().len() <= s.tombs.dom().len() + 1);
        assert(rest.tombs == tombs);
        buried_wf(s);
        the_lost_are_remembered(rest, now, horizon, w);
        sweep_classifies_the_old(rest, now, horizon);
        let after = rest.lost(now, horizon);
        let lost = s.lost(now, horizon);
        assert(lost == seq![first] + after);
        assert(!after.contains(first));
        if lost.contains(w) && w != first {
            let i = choose|i: int| 0 <= i < lost.len() && lost[i] == w;
            assert(after[i - 1] == w);
        }
        if after.contains(w) {
            let i = choose|i: int| 0 <= i < after.len() && after[i] == w;
            assert(lost[i + 1] == w);
        }
        assert(lost[0] == first);
    } else {
        behind_wf(s);
        the_lost_are_remembered(s.behind(), now, horizon, w);
    }
}

/// What a sweep reports of a number is the transmission recorded for it.
pub proof fn a_sweep_reports_transmissions(s: LedgerView, numbers: Seq<u32>, i: int)
    requires
        0 <= i < numbers.len(),
    ensures
        s.transmissions(numbers).len() == numbers.len(),
        s.transmissions(numbers)[i] == s.live[numbers[i]].1,
{
}

/// The age of a transmission is the time since it was sent, and none before.
pub proof fn age_counts_from_the_send(now: Instant, at: Instant)
    ensures
        now.nanos >= at.nanos ==> age(now, at) == now.nanos - at.nanos,
        now.nanos < at.nanos ==> age(now, at) == 0,
{
}

} // verus!
