//! What acknowledgements do to queues, palettes and coverage.
use crate::ack;
use crate::ack::{AckBatch, AckEntry};
use crate::fragment_coverage;
use crate::fragment_coverage::{CoverageView, FragmentCoverage};
use crate::io_bridge::dispatch;
use crate::io_bridge::dispatch::{EmitState, Emission};
use crate::protocol::Codec;
use crate::scheduler::work::WorkView;
use vstd::prelude::*;

verus! {

broadcast use vstd::slice::group_slice_axioms;

impl EmitState {
    /// One tile that an acknowledged pass carried was delivered: a Cdf53 pass
    /// is counted, other work is not sent again, and a palette is known to the
    /// client from now on.
    pub open spec fn delivered(self, c: FragmentCoverage) -> EmitState {
        EmitState {
            sched: (if c.codec == Codec::Cdf53 {
                self.sched.cdf53_acked(c.tile_x, c.tile_y, c.generation, c.pass_idx)
            } else {
                self.sched.marked(c.tile_x, c.tile_y, c.generation, c.pass_idx)
            }),
            palettes: (match c.palette_id {
                Some(id) => self.palettes.acked(id),
                None => self.palettes,
            }),
            released: (match c.palette_id {
                Some(id) => self.released.push(id),
                None => self.released,
            }),
            ..self
        }
    }

    /// All tiles of a pass were delivered.
    pub open spec fn all_delivered(self, list: Seq<FragmentCoverage>) -> EmitState
        decreases list.len(),
    {
        if list.len() == 0 {
            self
        } else {
            self.all_delivered(list.drop_last()).delivered(list.last())
        }
    }

    /// A pass was acknowledged; nothing happens for one that is not known.
    pub open spec fn acknowledged(self, e: AckEntry) -> EmitState {
        let n = fragment_coverage::number_of((e.frame_seq, e.tile_x, e.tile_y, e.pass_idx));
        if self.coverage.entries.dom().contains(n) {
            EmitState { coverage: self.coverage.without(n), ..self }.all_delivered(
                self.coverage.entries[n],
            )
        } else {
            self
        }
    }

    /// Several passes were acknowledged, in order.
    pub open spec fn all_acknowledged(self, entries: Seq<AckEntry>) -> EmitState
        decreases entries.len(),
    {
        if entries.len() == 0 {
            self
        } else {
            self.all_acknowledged(entries.drop_last()).acknowledged(entries.last())
        }
    }

    /// What a datagram from the client does: nothing unless it is a batch of
    /// acknowledgements.
    pub open spec fn after_datagram(self, data: Seq<u8>) -> EmitState {
        match ack::batch_of(data) {
            Ok(entries) => self.all_acknowledged(entries),
            Err(_) => self,
        }
    }
}

impl Emission {
    fn deliver(&mut self, c: FragmentCoverage, released: &mut Vec<u8>)
        requires
            old(self).wf(),
        ensures
            final(self).wf(),
            final(self).same_rules(*old(self)),
            final(self).state(final(released)@) == old(self).state(old(released)@).delivered(c),
    {
        let ghost before = self.state(released@);
        if c.codec == Codec::Cdf53 {
            self.scheduler.record_cdf53_ack(c.tile_x, c.tile_y, c.generation, c.pass_idx);
            assert(self.scheduler@ =~= before.sched.cdf53_acked(
                c.tile_x,
                c.tile_y,
                c.generation,
                c.pass_idx,
            ));
        } else {
            self.scheduler.mark_acked(c.tile_x, c.tile_y, c.generation, c.pass_idx);
            assert(self.scheduler@ =~= before.sched.marked(
                c.tile_x,
                c.tile_y,
                c.generation,
                c.pass_idx,
            ));
        }
        if let Some(id) = c.palette_id {
            self.palettes.on_acked(id);
            released.push(id);
        }
        assert(self.state(released@) =~= before.delivered(c));
    }

    fn acknowledge(&mut self, e: &AckEntry, released: &mut Vec<u8>)
        requires
            old(self).wf(),
        ensures
            final(self).wf(),
            final(self).same_rules(*old(self)),
            final(self).state(final(released)@) == old(self).state(old(released)@).acknowledged(*e),
    {
        let ghost before = self.state(released@);
        let ghost n = fragment_coverage::number_of((e.frame_seq, e.tile_x, e.tile_y, e.pass_idx));
        match self.coverage.take((e.frame_seq, e.tile_x, e.tile_y, e.pass_idx)) {
            None => {
                assert(self.state(released@) =~= before);
            },
            Some(list) => {
                let ghost start = EmitState { coverage: before.coverage.without(n), ..before };
                assert(self.state(released@) =~= start);
                let items = list.as_slice();
                let m: usize = items.len();
                let mut i: usize = 0;
                assert(items@.take(0) =~= Seq::empty());
                while i < m
                    invariant
                        i <= m,
                        m == items@.len(),
                        self.wf(),
                        self.same_rules(*old(self)),
                        self.state(released@) == start.all_delivered(items@.take(i as int)),
                    decreases m - i,
                {
                    assert(items@.take(i + 1).drop_last() =~= items@.take(i as int));
                    assert(items@.take(i + 1).last() == items@[i as int]);
                    self.deliver(items[i], released);
                    i = i + 1;
                }
                assert(items@.take(m as int) =~= items@);
            },
        }
    }

    /// Takes in a datagram from the client.  Gives the palettes whose use by a
    /// tile has ended.  A datagram that is no batch of acknowledgements is
    /// ignored, so that later kinds of message do no harm.
    pub fn dispatch_ack_datagram(&mut self, data: &[u8]) -> (released: Vec<u8>)
        requires
            old(self).wf(),
        ensures
            final(self).wf(),
            final(self).same_rules(*old(self)),
            final(self).state(released@) == old(self).state(Seq::empty()).after_datagram(data@),
    {
        let mut released: Vec<u8> = Vec::new();
        let ghost before = self.state(Seq::empty());
        assert(self.state(released@) =~= before);
        let batch: AckBatch = match AckBatch::decode(data) {
            Ok(b) => b,
            Err(_) => {
                return released;
            },
        };
        let ghost entries = batch.entries@;
        let n: usize = batch.entries.len();
        let mut i: usize = 0;
        assert(entries.take(0) =~= Seq::empty());
        while i < n
            invariant
                i <= n,
                n == batch.entries@.len(),
                entries == batch.entries@,
                self.wf(),
                self.same_rules(*old(self)),
                self.state(released@) == before.all_acknowledged(entries.take(i as int)),
            decreases n - i,
        {
            assert(entries.take(i + 1).drop_last() =~= entries.take(i as int));
            assert(entries.take(i + 1).last() == entries[i as int]);
            self.acknowledge(&batch.entries[i], &mut released);
            i = i + 1;
        }
        assert(entries.take(n as int) =~= entries);
        released
    }
}

/// Delivering tiles leaves the coverage alone.
proof fn delivery_keeps_coverage(s: EmitState, list: Seq<FragmentCoverage>)
    ensures
        s.all_delivered(list).coverage == s.coverage,
    decreases list.len(),
{
    if list.len() > 0 {
        delivery_keeps_coverage(s, list.drop_last());
    }
}

/// An acknowledgement counts once: repeated right away it changes nothing.
pub proof fn repeated_ack_changes_nothing(s: EmitState, e: AckEntry)
    ensures
        s.acknowledged(e).acknowledged(e) == s.acknowledged(e),
{
    let n = fragment_coverage::number_of((e.frame_seq, e.tile_x, e.tile_y, e.pass_idx));
    if s.coverage.entries.dom().contains(n) {
        let t = EmitState { coverage: s.coverage.without(n), ..s };
        delivery_keeps_coverage(t, s.coverage.entries[n]);
    }
}

/// The numbers under which the coverage of a frame's work is kept.
pub open spec fn work_numbers(works: Seq<WorkView>, seq: u32) -> Seq<u64> {
    works.map_values(
        |w: WorkView|
            fragment_coverage::number_of(
                (dispatch::acked_frame(seq), w.tile_x, w.tile_y, w.pass_idx),
            ),
    )
}

/// What a frame emitted can be acknowledged: as long as it fits the coverage
/// map, the coverage of each of its works is found under its own number.
pub proof fn emitted_work_is_found_again(
    c: CoverageView,
    works: Seq<WorkView>,
    seq: u32,
    i: int,
)
    requires
        c.wf(),
        works.len() <= c.capacity,
        work_numbers(works, seq).no_duplicates(),
        forall|k: int|
            0 <= k < works.len() ==> !c.entries.dom().contains(
                #[trigger] work_numbers(works, seq)[k],
            ),
        0 <= i < works.len(),
    ensures
        dispatch::all_covered(c, works, seq).entries.dom().contains(work_numbers(works, seq)[i]),
        dispatch::all_covered(c, works, seq).entries[work_numbers(works, seq)[i]]
            == seq![dispatch::coverage_of(works[i])],
{
    newest_are_kept(c, works, seq);
    let after = dispatch::all_covered(c, works, seq);
    let first = after.order.len() - works.len();
    assert(after.order[first + i] == work_numbers(works, seq)[i]);
    assert(after.order.contains(after.order[first + i]));
}

/// The newest entries of the coverage are those of the works, in order.
proof fn newest_are_kept(c: CoverageView, works: Seq<WorkView>, seq: u32)
    requires
        c.wf(),
        works.len() <= c.capacity,
        work_numbers(works, seq).no_duplicates(),
        forall|k: int|
            0 <= k < works.len() ==> !c.entries.dom().contains(
                #[trigger] work_numbers(works, seq)[k],
            ),
    ensures
        ({
            let after = dispatch::all_covered(c, works, seq);
            let first = after.order.len() - works.len();
            &&& after.wf()
            &&& after.capacity == c.capacity
            &&& first >= 0
            &&& forall|k: int|
                0 <= k < works.len() ==> after.order[first + k] == #[trigger] work_numbers(
                    works,
                    seq,
                )[k]
            &&& forall|k: int|
                0 <= k < works.len() ==> after.entries[#[trigger] work_numbers(works, seq)[k]]
                    == seq![dispatch::coverage_of(works[k])]
            &&& forall|n: u64| #[trigger]
                after.entries.dom().contains(n) ==> c.entries.dom().contains(n) || work_numbers(
                    works,
                    seq,
                ).contains(n)
        }),
    decreases works.len(),
{
    if works.len() > 0 {
        let init = works.drop_last();
        let all = work_numbers(works, seq);
        let numbers = work_numbers(init, seq);
        assert(numbers =~= all.drop_last());
        assert forall|k: int| 0 <= k < init.len() implies !c.entries.dom().contains(
            #[trigger] numbers[k],
        ) by {
            assert(numbers[k] == all[k]);
        }
        assert(numbers.no_duplicates()) by {
            assert forall|j: int, k: int| 0 <= j < k < numbers.len() implies numbers[j]
                != numbers[k] by {
                assert(all[j] != all[k]);
            }
        }
        newest_are_kept(c, init, seq);
        let before = dispatch::all_covered(c, init, seq);
        let n = all[works.len() - 1];
        let list = seq![dispatch::coverage_of(works.last())];
        let after = before.recorded(n, list);
        fragment_coverage::recorded_wf(before, n, list);
        assert(dispatch::all_covered(c, works, seq) == after);
        assert(!before.entries.dom().contains(n)) by {
            if before.entries.dom().contains(n) {
                assert(!c.entries.dom().contains(all[works.len() - 1]));
                let k = choose|k: int| 0 <= k < numbers.len() && numbers[k] == n;
                assert(all[k] == n);
            }
        }
        let first = before.order.len() - init.len();
        let room = before.with_room();
        let start = after.order.len() - works.len();
        assert forall|k: int| 0 <= k < works.len() implies after.order[start + k]
            == #[trigger] all[k] by {
            if k < init.len() {
                assert(numbers[k] == all[k]);
                assert(before.order[first + k] == numbers[k]);
            }
        }
        assert forall|k: int| 0 <= k < works.len() implies after.entries[#[trigger] all[k]]
            == seq![dispatch::coverage_of(works[k])] by {
            if k < init.len() {
                assert(numbers[k] == all[k]);
                assert(before.order[first + k] == numbers[k]);
                assert(all[k] != n);
                if before.order.len() >= before.capacity {
                    assert(before.order[0] != before.order[first + k]);
                }
                assert(room.entries[all[k]] == before.entries[all[k]]);
                assert(init[k] == works[k]);
            }
        }
        assert forall|x: u64| #[trigger] after.entries.dom().contains(x) implies c.entries.dom().contains(
            x,
        ) || all.contains(x) by {
            if x == n {
                assert(all[works.len() - 1] == x);
            } else {
                assert(before.entries.dom().contains(x));
                if numbers.contains(x) {
                    let k = choose|k: int| 0 <= k < numbers.len() && numbers[k] == x;
                    assert(all[k] == x);
                }
            }
        }
    }
}

/// An acknowledgement of a pass that one work carried delivers that work.
pub proof fn ack_reaches_its_work(s: EmitState, w: WorkView, e: AckEntry)
    requires
        s.coverage.entries.dom().contains(
            fragment_coverage::number_of((e.frame_seq, e.tile_x, e.tile_y, e.pass_idx)),
        ),
        s.coverage.entries[fragment_coverage::number_of(
            (e.frame_seq, e.tile_x, e.tile_y, e.pass_idx),
        )] == seq![dispatch::coverage_of(w)],
    ensures
        s.acknowledged(e) == (EmitState {
            coverage: s.coverage.without(
                fragment_coverage::number_of((e.frame_seq, e.tile_x, e.tile_y, e.pass_idx)),
            ),
            ..s
        }).delivered(dispatch::coverage_of(w)),
{
    let n = fragment_coverage::number_of((e.frame_seq, e.tile_x, e.tile_y, e.pass_idx));
    let t = EmitState { coverage: s.coverage.without(n), ..s };
    let list = seq![dispatch::coverage_of(w)];
    assert(list.drop_last() =~= Seq::empty());
    assert(t.all_delivered(list.drop_last()) == t);
    assert(list.last() == dispatch::coverage_of(w));
}

/// A datagram of another kind changes nothing.
pub proof fn other_datagrams_are_ignored(s: EmitState, data: Seq<u8>)
    requires
        data.len() == 0 || data[0] != ack::ACK_BATCH_MSG_TYPE,
    ensures
        s.after_datagram(data) == s,
{
}

/// A batch settles each of its acknowledgements, in order.
pub proof fn a_batch_settles_all_its_acks(s: EmitState, entries: Seq<AckEntry>)
    requires
        1 <= entries.len() <= 72,
    ensures
        s.after_datagram(ack::batch_bytes(entries)) == s.all_acknowledged(entries),
{
    ack::ack_batch_round_trip(entries);
}

} // verus!
