//! Output queue that interleaves source datagrams with their parities.
//!
//! A parity waits until the emission numbers have moved well past its group,
//! so that a burst of loss does not take it together with its sources.
use crate::reliable_emitter::END_OF_STREAM_PARITY_FLUSH_MS;
use crate::time::Instant;
use std::collections::VecDeque;
use vstd::prelude::*;

verus! {

broadcast use {
    vstd::std_specs::vecdeque::group_vec_dequeue_axioms,
    vstd::slice::group_slice_axioms,
};

/// A datagram to be sent.
#[derive(Debug, Clone)]
pub enum Emission {
    Source(Vec<u8>),
    Parity(Vec<u8>),
}

/// What an [`Emission`] holds.
pub enum EmissionView {
    Source(Seq<u8>),
    Parity(Seq<u8>),
}

impl View for Emission {
    type V = EmissionView;

    open spec fn view(&self) -> EmissionView {
        match self {
            Emission::Source(b) => EmissionView::Source(b@),
            Emission::Parity(b) => EmissionView::Parity(b@),
        }
    }
}

/// Lexicographic order of byte strings.
pub open spec fn lex_le(a: Seq<u8>, b: Seq<u8>) -> bool
    decreases a.len(),
{
    if a.len() == 0 {
        true
    } else if b.len() == 0 {
        false
    } else if a[0] != b[0] {
        a[0] < b[0]
    } else {
        lex_le(a.skip(1), b.skip(1))
    }
}

/// A parity and the emission number that it waits for.
pub type Waiting = (u32, Seq<u8>);

/// Order of waiting parities: by number, then by bytes.
pub open spec fn waits_le(a: Waiting, b: Waiting) -> bool {
    a.0 < b.0 || (a.0 == b.0 && lex_le(a.1, b.1))
}

/// In ascending order.
pub open spec fn in_order(s: Seq<Waiting>) -> bool {
    forall|i: int, j: int| 0 <= i < j < s.len() ==> waits_le(#[trigger] s[i], #[trigger] s[j])
}

/// Where `item` goes: behind the last entry that it is not below.
pub open spec fn place(s: Seq<Waiting>, item: Waiting) -> int
    decreases s.len(),
{
    if s.len() == 0 {
        0
    } else if waits_le(s.last(), item) {
        s.len() as int
    } else {
        place(s.drop_last(), item)
    }
}

/// Number of leading entries whose number is reached.
pub open spec fn ready(s: Seq<Waiting>, next: u32) -> nat
    decreases s.len(),
{
    if s.len() == 0 || s[0].0 > next {
        0
    } else {
        1 + ready(s.skip(1), next)
    }
}

/// The parities as emissions.
pub open spec fn as_emissions(s: Seq<Waiting>) -> Seq<EmissionView> {
    s.map_values(|w: Waiting| EmissionView::Parity(w.1))
}

/// State of an [`EmissionQueue`].
#[verifier::ext_equal]
pub struct QueueView {
    /// What is ready to go, oldest first.
    pub queue: Seq<EmissionView>,
    /// Parities that wait, soonest first.
    pub pending: Seq<Waiting>,
    /// Since when there is nothing to send but waiting parity.
    pub idle_since: Option<Instant>,
}

impl QueueView {
    /// Moves the parities whose number is reached to the end of the queue.
    pub open spec fn promoted(self, next: u32) -> QueueView {
        let n = ready(self.pending, next) as int;
        QueueView {
            queue: self.queue + as_emissions(self.pending.take(n)),
            pending: self.pending.skip(n),
            idle_since: self.idle_since,
        }
    }

    /// Moves all parities to the end of the queue once it was idle for long
    /// enough.
    pub open spec fn flushed(self, now: Instant) -> QueueView {
        match self.idle_since {
            Some(t) => if now.nanos - t.nanos >= END_OF_STREAM_PARITY_FLUSH_MS * 1_000_000 {
                QueueView {
                    queue: self.queue + as_emissions(self.pending),
                    pending: Seq::empty(),
                    idle_since: None,
                }
            } else {
                self
            },
            None => self,
        }
    }

    /// Takes the oldest emission; notes the time if only waiting parity is
    /// left.
    pub open spec fn taken(self, now: Instant) -> (QueueView, Option<EmissionView>) {
        if self.queue.len() > 0 {
            (
                QueueView { queue: self.queue.skip(1), pending: self.pending, idle_since: None },
                Some(self.queue[0]),
            )
        } else {
            (
                QueueView {
                    queue: self.queue,
                    pending: self.pending,
                    idle_since: (if self.pending.len() > 0 && self.idle_since is None {
                        Some(now)
                    } else {
                        self.idle_since
                    }),
                },
                None,
            )
        }
    }

    /// One `pop`.
    pub open spec fn popped(self, next: u32, now: Instant) -> (QueueView, Option<EmissionView>) {
        self.promoted(next).flushed(now).taken(now)
    }
}

/// The output queue of one session.
pub struct EmissionQueue {
    queue: VecDeque<Emission>,
    pending_parity: VecDeque<(u32, Vec<u8>)>,
    end_of_stream_idle_since: Option<Instant>,
}

spec fn emissions(s: Seq<Emission>) -> Seq<EmissionView> {
    s.map_values(|e: Emission| e@)
}

spec fn waiting(s: Seq<(u32, Vec<u8>)>) -> Seq<Waiting> {
    s.map_values(|w: (u32, Vec<u8>)| (w.0, w.1@))
}

impl View for EmissionQueue {
    type V = QueueView;

    closed spec fn view(&self) -> QueueView {
        QueueView {
            queue: emissions(self.queue@),
            pending: waiting(self.pending_parity@),
            idle_since: self.end_of_stream_idle_since,
        }
    }
}

/// Compares two byte strings.
fn bytes_le(a: &[u8], b: &[u8]) -> (r: bool)
    ensures
        r == lex_le(a@, b@),
{
    let mut i: usize = 0;
    assert(a@.skip(0) =~= a@);
    assert(b@.skip(0) =~= b@);
    while i < a.len() && i < b.len()
        invariant
            i <= a@.len(),
            i <= b@.len(),
            lex_le(a@, b@) == lex_le(a@.skip(i as int), b@.skip(i as int)),
        decreases a@.len() - i,
    {
        assert(a@.skip(i as int).skip(1) =~= a@.skip(i + 1));
        assert(b@.skip(i as int).skip(1) =~= b@.skip(i + 1));
        if a[i] != b[i] {
            return a[i] < b[i];
        }
        i = i + 1;
    }
    i == a.len()
}

impl EmissionQueue {
    /// Waiting parities are kept in order.
    pub open spec fn wf(&self) -> bool {
        in_order(self@.pending)
    }

    pub fn new() -> (q: Self)
        ensures
            q.wf(),
            q@ == QueueView::fresh(),
    {
        let q = EmissionQueue {
            queue: VecDeque::new(),
            pending_parity: VecDeque::new(),
            end_of_stream_idle_since: None,
        };
        assert(q@ =~= QueueView::fresh());
        q
    }

    /// Queues a source datagram.
    pub fn push_source(&mut self, bytes: Vec<u8>)
        ensures
            final(self)@ == (QueueView {
                queue: old(self)@.queue.push(EmissionView::Source(bytes@)),
                pending: old(self)@.pending,
                idle_since: None,
            }),
    {
        self.queue.push_back(Emission::Source(bytes));
        self.end_of_stream_idle_since = None;
        assert(self@.queue =~= old(self)@.queue.push(EmissionView::Source(bytes@)));
    }

    /// Puts an emission that could not be sent back to the front.
    pub fn put_back(&mut self, emission: Emission)
        ensures
            final(self)@ == (QueueView {
                queue: seq![emission@] + old(self)@.queue,
                pending: old(self)@.pending,
                idle_since: None,
            }),
    {
        self.queue.push_front(emission);
        self.end_of_stream_idle_since = None;
        assert(self@.queue =~= seq![emission@] + old(self)@.queue);
    }

    /// Lets a parity wait until `emit_after_wire_seq` is reached.
    pub fn schedule_parity(&mut self, emit_after_wire_seq: u32, bytes: Vec<u8>)
        requires
            old(self).wf(),
        ensures
            final(self).wf(),
            final(self)@ == (QueueView {
                queue: old(self)@.queue,
                pending: old(self)@.pending.insert(
                    place(old(self)@.pending, (emit_after_wire_seq, bytes@)),
                    (emit_after_wire_seq, bytes@),
                ),
                idle_since: old(self)@.idle_since,
            }),
    {
        let ghost item: Waiting = (emit_after_wire_seq, bytes@);
        let ghost before = self@.pending;
        let mut pos: usize = self.pending_parity.len();
        assert(before.take(pos as int) =~= before);
        while pos > 0 && !Self::waits_no_later(
            &self.pending_parity[pos - 1],
            emit_after_wire_seq,
            &bytes,
        )
            invariant
                pos <= before.len(),
                *self == *old(self),
                before == self@.pending,
                before.len() == self.pending_parity@.len(),
                item == (emit_after_wire_seq, bytes@),
                place(before, item) == place(before.take(pos as int), item),
                forall|j: int| pos <= j < before.len() ==> !waits_le(#[trigger] before[j], item),
            decreases pos,
        {
            assert(before.take(pos as int).drop_last() =~= before.take(pos - 1));
            assert(before.take(pos as int).last() == before[pos - 1]);
            pos = pos - 1;
        }
        proof {
            if pos > 0 {
                assert(before.take(pos as int).last() == before[pos - 1]);
            }
            insert_keeps_order(before, pos as int, item);
        }
        self.pending_parity.insert(pos, (emit_after_wire_seq, bytes));
        assert(self@.pending =~= before.insert(pos as int, item));
    }

    fn waits_no_later(entry: &(u32, Vec<u8>), after: u32, bytes: &Vec<u8>) -> (r: bool)
        ensures
            r == waits_le((entry.0, entry.1@), (after, bytes@)),
    {
        entry.0 < after || (entry.0 == after && bytes_le(entry.1.as_slice(), bytes.as_slice()))
    }

    /// Moves the soonest parity to the end of the queue.
    fn promote_first(&mut self)
        requires
            old(self)@.pending.len() > 0,
        ensures
            final(self)@ == (QueueView {
                queue: old(self)@.queue.push(EmissionView::Parity(old(self)@.pending[0].1)),
                pending: old(self)@.pending.skip(1),
                idle_since: old(self)@.idle_since,
            }),
    {
        let (_, bytes) = self.pending_parity.pop_front().unwrap();
        self.queue.push_back(Emission::Parity(bytes));
        assert(self@.queue =~= old(self)@.queue.push(
            EmissionView::Parity(old(self)@.pending[0].1),
        ));
        assert(self@.pending =~= old(self)@.pending.skip(1));
    }

    /// Takes the next emission, given the emission number that the next new
    /// source will have.
    pub fn pop(&mut self, next_wire_seq: u32, now: Instant) -> (r: Option<Emission>)
        requires
            old(self).wf(),
        ensures
            final(self).wf(),
            final(self)@ == old(self)@.popped(next_wire_seq, now).0,
            match (r, old(self)@.popped(next_wire_seq, now).1) {
                (Some(got), Some(want)) => got@ == want,
                (None, None) => true,
                _ => false,
            },
    {
        let ghost v = self@;
        let ghost n: nat = 0;
        assert(v.queue + as_emissions(v.pending.take(0)) =~= v.queue);
        assert(v.pending.skip(0) =~= v.pending);
        while self.pending_parity.len() > 0 && self.pending_parity[0].0 <= next_wire_seq
            invariant
                n <= v.pending.len(),
                self@.queue == v.queue + as_emissions(v.pending.take(n as int)),
                self@.pending == v.pending.skip(n as int),
                self@.idle_since == v.idle_since,
                self@.pending.len() == self.pending_parity@.len(),
                ready(v.pending, next_wire_seq) == n + ready(
                    v.pending.skip(n as int),
                    next_wire_seq,
                ),
            decreases v.pending.len() - n,
        {
            assert(self@.pending[0].0 == self.pending_parity@[0].0);
            self.promote_first();
            proof {
                n = n + 1;
                assert(v.pending.skip(n - 1).skip(1) =~= v.pending.skip(n as int));
                assert(self@.queue =~= v.queue + as_emissions(v.pending.take(n as int)));
            }
        }
        proof {
            if self@.pending.len() > 0 {
                assert(self@.pending[0].0 == self.pending_parity@[0].0);
            }
            assert(n == ready(v.pending, next_wire_seq));
            assert(self@ =~= v.promoted(next_wire_seq));
            assert(in_order(self@.pending));
        }
        self.maybe_flush_pending(now);
        let ghost w = self@;
        match self.queue.pop_front() {
            Some(e) => {
                self.end_of_stream_idle_since = None;
                assert(self@.queue =~= w.queue.skip(1));
                Some(e)
            },
            None => {
                if self.pending_parity.len() > 0 && self.end_of_stream_idle_since.is_none() {
                    self.end_of_stream_idle_since = Some(now);
                }
                assert(self@.queue =~= w.queue);
                None
            },
        }
    }

    fn maybe_flush_pending(&mut self, now: Instant)
        requires
            old(self).wf(),
        ensures
            final(self).wf(),
            final(self)@ == old(self)@.flushed(now),
    {
        let idle_since = match self.end_of_stream_idle_since {
            Some(t) => t,
            None => return,
        };
        if now.duration_since(idle_since).nanos < END_OF_STREAM_PARITY_FLUSH_MS as u128
            * 1_000_000 {
            return;
        }
        let ghost v = self@;
        let ghost n: nat = 0;
        assert(v.queue + as_emissions(v.pending.take(0)) =~= v.queue);
        assert(v.pending.skip(0) =~= v.pending);
        while self.pending_parity.len() > 0
            invariant
                n <= v.pending.len(),
                self@.queue == v.queue + as_emissions(v.pending.take(n as int)),
                self@.pending == v.pending.skip(n as int),
                self@.pending.len() == self.pending_parity@.len(),
            decreases v.pending.len() - n,
        {
            self.promote_first();
            proof {
                n = n + 1;
                assert(v.pending.skip(n - 1).skip(1) =~= v.pending.skip(n as int));
                assert(self@.queue =~= v.queue + as_emissions(v.pending.take(n as int)));
            }
        }
        self.end_of_stream_idle_since = None;
        assert(v.pending.take(n as int) =~= v.pending);
        assert(self@ =~= v.flushed(now));
    }

    /// Nothing is queued and nothing waits.
    pub fn is_empty(&self) -> (b: bool)
        ensures
            b == (self@.queue.len() == 0 && self@.pending.len() == 0),
    {
        self.queue.len() == 0 && self.pending_parity.len() == 0
    }
}

/// Of two byte strings one is not above the other.
pub proof fn lex_total(a: Seq<u8>, b: Seq<u8>)
    ensures
        lex_le(a, b) || lex_le(b, a),
    decreases a.len(),
{
    if a.len() > 0 && b.len() > 0 {
        lex_total(a.skip(1), b.skip(1));
    }
}

/// The order of byte strings is transitive.
pub proof fn lex_transitive(a: Seq<u8>, b: Seq<u8>, c: Seq<u8>)
    requires
        lex_le(a, b),
        lex_le(b, c),
    ensures
        lex_le(a, c),
    decreases a.len(),
{
    if a.len() > 0 && b.len() > 0 && c.len() > 0 && a[0] == b[0] && b[0] == c[0] {
        lex_transitive(a.skip(1), b.skip(1), c.skip(1));
    }
}

proof fn waits_transitive(a: Waiting, b: Waiting, c: Waiting)
    requires
        waits_le(a, b),
        waits_le(b, c),
    ensures
        waits_le(a, c),
{
    if a.0 == b.0 && b.0 == c.0 {
        lex_transitive(a.1, b.1, c.1);
    }
}

/// Inserting behind the last entry that is not above keeps the order.
proof fn insert_keeps_order(s: Seq<Waiting>, pos: int, item: Waiting)
    requires
        in_order(s),
        0 <= pos <= s.len(),
        pos > 0 ==> waits_le(s[pos - 1], item),
        forall|j: int| pos <= j < s.len() ==> !waits_le(#[trigger] s[j], item),
    ensures
        in_order(s.insert(pos, item)),
{
    let t = s.insert(pos, item);
    assert forall|i: int, j: int| 0 <= i < j < t.len() implies waits_le(
        #[trigger] t[i],
        #[trigger] t[j],
    ) by {
        if j == pos {
            if i < pos - 1 {
                assert(waits_le(s[i], s[pos - 1]));
                waits_transitive(s[i], s[pos - 1], item);
            }
        } else if i == pos {
            assert(t[j] == s[j - 1]);
            lex_total(s[j - 1].1, item.1);
        } else {
            let a = if i < pos {
                i
            } else {
                i - 1
            };
            let b = if j < pos {
                j
            } else {
                j - 1
            };
            assert(t[i] == s[a] && t[j] == s[b]);
        }
    }
}

/// No parity is sent before its number is reached, unless the queue was idle:
/// what stays behind after a promotion waits for a later number.
pub proof fn waiting_parity_is_not_due(s: Seq<Waiting>, next: u32, i: int)
    requires
        in_order(s),
        ready(s, next) <= i < s.len(),
    ensures
        s[i].0 > next,
    decreases s.len(),
{
    if s.len() > 0 && s[0].0 <= next {
        assert forall|a: int, b: int| 0 <= a < b < s.skip(1).len() implies waits_le(
            #[trigger] s.skip(1)[a],
            #[trigger] s.skip(1)[b],
        ) by {
            assert(waits_le(s[a + 1], s[b + 1]));
        }
        waiting_parity_is_not_due(s.skip(1), next, i - 1);
    } else if i > 0 {
        assert(waits_le(s[0], s[i]));
    }
}

/// The first `ready` entries are due.
pub proof fn promoted_parity_is_due(s: Seq<Waiting>, next: u32, i: int)
    requires
        0 <= i < ready(s, next),
    ensures
        ready(s, next) <= s.len(),
        s[i].0 <= next,
    decreases s.len(),
{
    if i > 0 {
        promoted_parity_is_due(s.skip(1), next, i - 1);
    } else if ready(s.skip(1), next) > 0 {
        promoted_parity_is_due(s.skip(1), next, 0);
    }
}

/// An operation on a queue.
pub enum QueueOp {
    PushSource(Seq<u8>),
    ScheduleParity(u32, Seq<u8>),
    Pop(u32, Instant),
}

impl QueueView {
    /// Nothing is queued and nothing waits.
    pub open spec fn fresh() -> QueueView {
        QueueView { queue: Seq::empty(), pending: Seq::empty(), idle_since: None }
    }

    /// The state after one operation.
    pub open spec fn step(self, op: QueueOp) -> QueueView {
        match op {
            QueueOp::PushSource(bytes) => QueueView {
                queue: self.queue.push(EmissionView::Source(bytes)),
                pending: self.pending,
                idle_since: None,
            },
            QueueOp::ScheduleParity(after, bytes) => QueueView {
                queue: self.queue,
                pending: self.pending.insert(place(self.pending, (after, bytes)), (after, bytes)),
                idle_since: self.idle_since,
            },
            QueueOp::Pop(next, now) => self.popped(next, now).0,
        }
    }

    /// The state after some operations.
    pub open spec fn after(self, ops: Seq<QueueOp>) -> QueueView
        decreases ops.len(),
    {
        if ops.len() == 0 {
            self
        } else {
            self.after(ops.drop_last()).step(ops.last())
        }
    }

    /// What came out, in order.
    pub open spec fn given(self, ops: Seq<QueueOp>) -> Seq<EmissionView>
        decreases ops.len(),
    {
        if ops.len() == 0 {
            Seq::empty()
        } else {
            let before = self.given(ops.drop_last());
            match ops.last() {
                QueueOp::Pop(next, now) => match self.after(ops.drop_last()).popped(next, now).1 {
                    Some(e) => before.push(e),
                    None => before,
                },
                _ => before,
            }
        }
    }

    /// The parities that one `pop` moves to the end of the queue.
    pub open spec fn releases(self, next: u32, now: Instant) -> Seq<Waiting> {
        let p = self.promoted(next);
        self.pending.take(ready(self.pending, next) as int) + (if p.is_over(now) {
            p.pending
        } else {
            Seq::empty()
        })
    }

    /// The queue was idle for long enough.
    pub open spec fn is_over(self, now: Instant) -> bool {
        self.idle_since is Some && now.nanos - self.idle_since->0.nanos
            >= END_OF_STREAM_PARITY_FLUSH_MS * 1_000_000
    }

    /// The parities that were moved to the queue, in order.
    pub open spec fn released(self, ops: Seq<QueueOp>) -> Seq<Waiting>
        decreases ops.len(),
    {
        if ops.len() == 0 {
            Seq::empty()
        } else {
            let before = self.released(ops.drop_last());
            match ops.last() {
                QueueOp::Pop(next, now) => before + self.after(ops.drop_last()).releases(next, now),
                _ => before,
            }
        }
    }

    /// Operation `j` is a `pop` at this time that gave nothing, and no source
    /// was pushed since.
    pub open spec fn is_idle_from(self, ops: Seq<QueueOp>, j: int, since: Instant) -> bool {
        &&& 0 <= j < ops.len()
        &&& ops[j] matches QueueOp::Pop(next, now) && now == since && self.after(
            ops.take(j),
        ).popped(next, now).1 is None
        &&& forall|m: int| j < m < ops.len() ==> #[trigger] ops[m] !is PushSource
    }

    /// Operation `i` is a `pop` with a number that reaches the `k`-th parity
    /// released, or one long enough after a `pop` that gave nothing, with no
    /// source pushed in between; that parity is released with it and comes out
    /// with it or later.
    pub open spec fn is_due_at(self, ops: Seq<QueueOp>, i: int, k: int) -> bool {
        &&& 0 <= i < ops.len()
        &&& parities_in(self.given(ops.take(i))).len() <= k
        &&& self.released(ops.take(i)).len() <= k < self.released(ops.take(i + 1)).len()
        &&& ops[i] matches QueueOp::Pop(next, now) && (self.released(ops)[k].0 <= next
            || exists|j: int, since: Instant| #[trigger]
            self.is_idle_from(ops.take(i), j, since) && now.nanos - since.nanos
                >= END_OF_STREAM_PARITY_FLUSH_MS * 1_000_000)
    }
}

impl QueueView {
    /// The `k`-th parity released was due then.
    pub open spec fn is_timely(self, ops: Seq<QueueOp>, k: int) -> bool {
        exists|i: int| #[trigger] self.is_due_at(ops, i, k)
    }
}

/// The bytes of the sources among some emissions, in order.
pub open spec fn sources_in(s: Seq<EmissionView>) -> Seq<Seq<u8>>
    decreases s.len(),
{
    if s.len() == 0 {
        Seq::empty()
    } else {
        match s.last() {
            EmissionView::Source(b) => sources_in(s.drop_last()).push(b),
            EmissionView::Parity(_) => sources_in(s.drop_last()),
        }
    }
}

/// The bytes of the parities among some emissions, in order.
pub open spec fn parities_in(s: Seq<EmissionView>) -> Seq<Seq<u8>>
    decreases s.len(),
{
    if s.len() == 0 {
        Seq::empty()
    } else {
        match s.last() {
            EmissionView::Source(_) => parities_in(s.drop_last()),
            EmissionView::Parity(b) => parities_in(s.drop_last()).push(b),
        }
    }
}

/// The sources that some operations pushed, in order.
pub open spec fn pushed(ops: Seq<QueueOp>) -> Seq<Seq<u8>>
    decreases ops.len(),
{
    if ops.len() == 0 {
        Seq::empty()
    } else {
        match ops.last() {
            QueueOp::PushSource(b) => pushed(ops.drop_last()).push(b),
            _ => pushed(ops.drop_last()),
        }
    }
}

/// The parities that some operations scheduled, in order.
pub open spec fn scheduled(ops: Seq<QueueOp>) -> Seq<Waiting>
    decreases ops.len(),
{
    if ops.len() == 0 {
        Seq::empty()
    } else {
        match ops.last() {
            QueueOp::ScheduleParity(after, b) => scheduled(ops.drop_last()).push((after, b)),
            _ => scheduled(ops.drop_last()),
        }
    }
}

/// The bytes of parities.
pub open spec fn waiting_bytes(s: Seq<Waiting>) -> Seq<Seq<u8>> {
    s.map_values(|w: Waiting| w.1)
}

/// Sources and parities of two lists in a row.
proof fn kinds_of_sum(a: Seq<EmissionView>, b: Seq<EmissionView>)
    ensures
        sources_in(a + b) == sources_in(a) + sources_in(b),
        parities_in(a + b) == parities_in(a) + parities_in(b),
    decreases b.len(),
{
    if b.len() == 0 {
        assert(a + b =~= a);
        assert(sources_in(a) + sources_in(b) =~= sources_in(a));
        assert(parities_in(a) + parities_in(b) =~= parities_in(a));
    } else {
        kinds_of_sum(a, b.drop_last());
        assert((a + b).drop_last() =~= a + b.drop_last());
        assert((a + b).last() == b.last());
        assert(sources_in(a + b) =~= sources_in(a) + sources_in(b));
        assert(parities_in(a + b) =~= parities_in(a) + parities_in(b));
    }
}

/// Parities are no sources.
proof fn kinds_of_parities(s: Seq<Waiting>)
    ensures
        sources_in(as_emissions(s)) == Seq::<Seq<u8>>::empty(),
        parities_in(as_emissions(s)) == waiting_bytes(s),
    decreases s.len(),
{
    if s.len() == 0 {
        assert(waiting_bytes(s) =~= Seq::<Seq<u8>>::empty());
    } else {
        kinds_of_parities(s.drop_last());
        assert(as_emissions(s).drop_last() =~= as_emissions(s.drop_last()));
        assert(waiting_bytes(s) =~= waiting_bytes(s.drop_last()).push(s.last().1));
    }
}

/// One emission is a source or a parity.
proof fn kinds_of_one(e: EmissionView)
    ensures
        sources_in(seq![e]) == (match e {
            EmissionView::Source(b) => seq![b],
            EmissionView::Parity(_) => Seq::<Seq<u8>>::empty(),
        }),
        parities_in(seq![e]) == (match e {
            EmissionView::Source(_) => Seq::<Seq<u8>>::empty(),
            EmissionView::Parity(b) => seq![b],
        }),
{
    let s = seq![e];
    assert(s.drop_last() =~= Seq::<EmissionView>::empty());
    assert(s.last() == e);
    reveal_with_fuel(sources_in, 2);
    reveal_with_fuel(parities_in, 2);
    match e {
        EmissionView::Source(b) => {
            assert(sources_in(s) =~= seq![b]);
        },
        EmissionView::Parity(b) => {
            assert(parities_in(s) =~= seq![b]);
        },
    }
}

/// A parity goes somewhere among those that wait, or to an end.
pub proof fn place_in_range(s: Seq<Waiting>, item: Waiting)
    ensures
        0 <= place(s, item) <= s.len(),
    decreases s.len(),
{
    if s.len() > 0 {
        place_in_range(s.drop_last(), item);
    }
}

/// No more parities are due than wait.
pub proof fn ready_in_range(s: Seq<Waiting>, next: u32)
    ensures
        ready(s, next) <= s.len(),
    decreases s.len(),
{
    if s.len() > 0 && s[0].0 <= next {
        ready_in_range(s.skip(1), next);
    }
}

/// What one `pop` does to the sources and parities of the queue.
proof fn pop_moves(s: QueueView, next: u32, now: Instant)
    ensures
        ({
            let (t, e) = s.popped(next, now);
            let out = match e {
                Some(x) => seq![x],
                None => Seq::<EmissionView>::empty(),
            };
            &&& sources_in(out) + sources_in(t.queue) == sources_in(s.queue)
            &&& parities_in(out) + parities_in(t.queue) == parities_in(s.queue) + waiting_bytes(
                s.releases(next, now),
            )
            &&& s.releases(next, now).to_multiset().add(t.pending.to_multiset())
                == s.pending.to_multiset()
            &&& e is None ==> t.queue.len() == 0 && s.queue.len() == 0
        }),
{
    let n = ready(s.pending, next) as int;
    ready_in_range(s.pending, next);
    let p = s.promoted(next);
    let f = p.flushed(now);
    let (t, e) = s.popped(next, now);
    let due = s.pending.take(n);
    let rest = s.pending.skip(n);
    let more = if p.is_over(now) {
        rest
    } else {
        Seq::empty()
    };
    let moved = s.releases(next, now);
    assert(moved =~= due + more);
    assert(as_emissions(moved) =~= as_emissions(due) + as_emissions(more));
    assert(f.queue =~= s.queue + as_emissions(moved));
    kinds_of_sum(s.queue, as_emissions(moved));
    kinds_of_parities(moved);
    assert(sources_in(s.queue) + Seq::<Seq<u8>>::empty() =~= sources_in(s.queue));
    assert(sources_in(f.queue) == sources_in(s.queue));
    if f.queue.len() > 0 {
        let x = f.queue[0];
        assert(f.queue =~= seq![x] + t.queue);
        kinds_of_sum(seq![x], t.queue);
    } else {
        let none = Seq::<EmissionView>::empty();
        assert(f.queue =~= none);
        assert(t.queue =~= none);
        assert(sources_in(none) + sources_in(t.queue) =~= sources_in(none));
        assert(parities_in(none) + parities_in(t.queue) =~= parities_in(none));
    }
    broadcast use vstd::multiset::group_multiset_axioms;

    assert(s.pending =~= due + rest);
    vstd::seq_lib::lemma_multiset_commutative(due, rest);
    vstd::seq_lib::lemma_multiset_commutative(due, more);
    if p.is_over(now) {
        assert(t.pending =~= Seq::empty());
        Seq::<Waiting>::empty().to_multiset_ensures();
        assert(moved.to_multiset().add(t.pending.to_multiset()) =~= s.pending.to_multiset());
    } else {
        assert(moved =~= due);
        assert(t.pending =~= rest);
    }
}

/// Across any calls on a new queue, sources come out in the order in which they
/// were pushed, each once, and a `pop` gives nothing only when no source is
/// left.
pub proof fn sources_come_out_in_order(ops: Seq<QueueOp>)
    ensures
        sources_in(QueueView::fresh().given(ops)) + sources_in(QueueView::fresh().after(ops).queue)
            == pushed(ops),
        forall|next: u32, now: Instant|
            (#[trigger] QueueView::fresh().after(ops).popped(next, now)).1 is None ==> sources_in(
                QueueView::fresh().given(ops),
            ) == pushed(ops),
    decreases ops.len(),
{
    let s0 = QueueView::fresh();
    let t = s0.after(ops);
    if ops.len() == 0 {
        assert(sources_in(s0.given(ops)) + sources_in(t.queue) =~= Seq::empty());
    } else {
        let init = ops.drop_last();
        sources_come_out_in_order(init);
        let s = s0.after(init);
        let given = s0.given(init);
        match ops.last() {
            QueueOp::PushSource(b) => {
                assert(t.queue =~= s.queue + seq![EmissionView::Source(b)]);
                kinds_of_sum(s.queue, seq![EmissionView::Source(b)]);
                kinds_of_one(EmissionView::Source(b));
                assert(sources_in(given) + sources_in(t.queue) =~= pushed(init).push(b));
            },
            QueueOp::ScheduleParity(after, b) => {},
            QueueOp::Pop(next, now) => {
                pop_moves(s, next, now);
                if let Some(e) = s.popped(next, now).1 {
                    assert(s0.given(ops) =~= given + seq![e]);
                    kinds_of_sum(given, seq![e]);
                    assert(sources_in(given) + (sources_in(seq![e]) + sources_in(t.queue))
                        =~= sources_in(given) + sources_in(seq![e]) + sources_in(t.queue));
                } else {
                    assert(sources_in(Seq::<EmissionView>::empty()) + sources_in(t.queue)
                        =~= sources_in(t.queue));
                }
            },
        }
    }
    assert forall|next: u32, now: Instant| (#[trigger] t.popped(next, now)).1 is None implies
        sources_in(s0.given(ops)) == pushed(ops) by {
        pop_moves(t, next, now);
        assert(sources_in(s0.given(ops)) + sources_in(t.queue) =~= sources_in(s0.given(ops)));
    }
}

/// Every parity that was scheduled waits, is queued or came out.
proof fn parities_are_kept(ops: Seq<QueueOp>)
    ensures
        ({
            let s0 = QueueView::fresh();
            let released = s0.released(ops);
            &&& parities_in(s0.given(ops)) + parities_in(s0.after(ops).queue) == waiting_bytes(
                released,
            )
            &&& released.to_multiset().add(s0.after(ops).pending.to_multiset()) == scheduled(
                ops,
            ).to_multiset()
        }),
    decreases ops.len(),
{
    let s0 = QueueView::fresh();
    let t = s0.after(ops);
    let released = s0.released(ops);
    if ops.len() == 0 {
        assert(parities_in(s0.given(ops)) + parities_in(t.queue) =~= waiting_bytes(released));
        assert(released.to_multiset().add(t.pending.to_multiset()) =~= scheduled(
            ops,
        ).to_multiset()) by {
            broadcast use vstd::multiset::group_multiset_axioms;

            Seq::<Waiting>::empty().to_multiset_ensures();
        }
    } else {
        let init = ops.drop_last();
        parities_are_kept(init);
        let s = s0.after(init);
        let given = s0.given(init);
        let before = s0.released(init);
        match ops.last() {
            QueueOp::PushSource(b) => {
                assert(t.queue =~= s.queue + seq![EmissionView::Source(b)]);
                kinds_of_sum(s.queue, seq![EmissionView::Source(b)]);
                kinds_of_one(EmissionView::Source(b));
                assert(parities_in(given) + parities_in(t.queue) =~= parities_in(given)
                    + parities_in(s.queue));
            },
            QueueOp::ScheduleParity(after, b) => {
                let item: Waiting = (after, b);
                place_in_range(s.pending, item);
                vstd::seq_lib::to_multiset_insert(s.pending, place(s.pending, item), item);
                vstd::seq_lib::to_multiset_build(scheduled(init), item);
                assert(released.to_multiset().add(t.pending.to_multiset()) =~= scheduled(
                    ops,
                ).to_multiset()) by {
                    broadcast use vstd::multiset::group_multiset_axioms;

                }
            },
            QueueOp::Pop(next, now) => {
                pop_moves(s, next, now);
                let moved = s.releases(next, now);
                vstd::seq_lib::lemma_multiset_commutative(before, moved);
                assert(released.to_multiset().add(t.pending.to_multiset()) =~= scheduled(
                    ops,
                ).to_multiset()) by {
                    broadcast use vstd::multiset::group_multiset_axioms;

                }
                assert(waiting_bytes(released) =~= waiting_bytes(before) + waiting_bytes(moved));
                assert(parities_in(given) + (parities_in(s.queue) + waiting_bytes(moved))
                    =~= parities_in(given) + parities_in(s.queue) + waiting_bytes(moved));
                if let Some(e) = s.popped(next, now).1 {
                    assert(s0.given(ops) =~= given + seq![e]);
                    kinds_of_sum(given, seq![e]);
                    assert(parities_in(given) + (parities_in(seq![e]) + parities_in(t.queue))
                        =~= parities_in(given) + parities_in(seq![e]) + parities_in(t.queue));
                } else {
                    assert(parities_in(Seq::<EmissionView>::empty()) + parities_in(t.queue)
                        =~= parities_in(t.queue));
                }
            },
        }
    }
}

/// A queue that counts as idle gave nothing, and got no source since.
proof fn idle_is_seen(ops: Seq<QueueOp>)
    ensures
        QueueView::fresh().after(ops).idle_since is Some ==> exists|j: int| #[trigger]
            QueueView::fresh().is_idle_from(
                ops,
                j,
                QueueView::fresh().after(ops).idle_since->0,
            ),
    decreases ops.len(),
{
    let s0 = QueueView::fresh();
    let t = s0.after(ops);
    if ops.len() > 0 && t.idle_since is Some {
        let init = ops.drop_last();
        let last = ops.len() - 1;
        let s = s0.after(init);
        idle_is_seen(init);
        assert(ops.take(last) =~= init);
        if s.idle_since is Some && t.idle_since == s.idle_since {
            let since = s.idle_since->0;
            let j = choose|j: int| #[trigger] s0.is_idle_from(init, j, since);
            assert(init[j] == ops[j]);
            assert(ops.take(j) =~= init.take(j));
            assert forall|m: int| j < m < ops.len() implies #[trigger] ops[m] !is PushSource by {
                if m < last {
                    assert(init[m] == ops[m]);
                }
            }
            assert(s0.is_idle_from(ops, j, since));
        } else {
            assert(s0.is_idle_from(ops, last, t.idle_since->0));
        }
    }
}

/// Every parity that was released was due.
proof fn released_on_time(ops: Seq<QueueOp>)
    ensures
        forall|k: int|
            0 <= k < QueueView::fresh().released(ops).len() ==> #[trigger] QueueView::fresh().is_timely(
                ops,
                k,
            ),
    decreases ops.len(),
{
    let s0 = QueueView::fresh();
    if ops.len() > 0 {
        let init = ops.drop_last();
        let last = ops.len() - 1;
        let s = s0.after(init);
        let before = s0.released(init);
        let released = s0.released(ops);
        released_on_time(init);
        parities_are_kept(init);
        assert(ops.take(last) =~= init);
        assert(ops.take(last + 1) =~= ops);
        assert forall|k: int| 0 <= k < released.len() implies #[trigger] s0.is_timely(ops, k) by {
            if k < before.len() {
                assert(s0.is_timely(init, k));
                let i = choose|i: int| #[trigger] s0.is_due_at(init, i, k);
                assert(init.take(i) =~= ops.take(i));
                assert(init.take(i + 1) =~= ops.take(i + 1));
                assert(init[i] == ops[i]);
                assert(released[k] == before[k]);
                assert(s0.is_due_at(ops, i, k));
            } else {
                assert(waiting_bytes(before).len() == before.len());
                assert(parities_in(s0.given(init)).len() + parities_in(s.queue).len()
                    == before.len());
                if let QueueOp::Pop(next, now) = ops.last() {
                    let n = ready(s.pending, next) as int;
                    let moved = s.releases(next, now);
                    ready_in_range(s.pending, next);
                    assert(released[k] == moved[k - before.len()]);
                    if k - before.len() < n {
                        promoted_parity_is_due(s.pending, next, k - before.len());
                        assert(released[k].0 <= next);
                    } else {
                        assert(s.promoted(next).is_over(now));
                        idle_is_seen(init);
                        let since = s.idle_since->0;
                        let j = choose|j: int| #[trigger] s0.is_idle_from(init, j, since);
                        assert(s0.is_idle_from(ops.take(last), j, since));
                    }
                    assert(s0.is_due_at(ops, last, k));
                }
            }
        }
    }
}

/// Across any calls on a new queue, every parity that was scheduled either
/// waits or was released once; those released come out in that order, each at
/// most once, and none before its number is reached or the queue was idle for
/// long enough.
pub proof fn no_parity_comes_out_early(ops: Seq<QueueOp>)
    ensures
        ({
            let s0 = QueueView::fresh();
            let released = s0.released(ops);
            &&& parities_in(s0.given(ops)) + parities_in(s0.after(ops).queue) == waiting_bytes(
                released,
            )
            &&& released.to_multiset().add(s0.after(ops).pending.to_multiset()) == scheduled(
                ops,
            ).to_multiset()
            &&& forall|k: int|
                0 <= k < released.len() ==> #[trigger] s0.is_timely(ops, k)
        }),
{
    parities_are_kept(ops);
    released_on_time(ops);
}

} // verus!
