//! Tile work and the queues it waits in.
use crate::protocol::Codec;
use crate::time::{Duration, Instant};
use crate::wire;
use std::collections::VecDeque;
use vstd::prelude::*;

verus! {

broadcast use vstd::std_specs::vecdeque::group_vec_dequeue_axioms;

#[derive(Debug, Clone, Copy, PartialEq, Eq, Structural)]
pub enum WorkState {
    Pending,
    InFlight,
    Acked,
    Superseded,
}

/// One encoded pass of one tile, waiting to be sent or acknowledged.
#[derive(Debug, Clone)]
pub struct TileWork {
    pub tile_x: u8,
    pub tile_y: u8,
    /// Four bits go on the wire.
    pub generation: u8,
    /// Four bits go on the wire; 0 for single-pass codecs.
    pub pass_idx: u8,
    pub total_passes: u8,
    pub codec: Codec,
    pub payload: Vec<u8>,
    pub queued_at: Instant,
    pub last_sent_at: Option<Instant>,
    pub state: WorkState,
}

/// What a [`TileWork`] holds.
#[verifier::ext_equal]
pub struct WorkView {
    pub tile_x: u8,
    pub tile_y: u8,
    pub generation: u8,
    pub pass_idx: u8,
    pub total_passes: u8,
    pub codec: Codec,
    pub payload: Seq<u8>,
    pub queued_at: Instant,
    pub last_sent_at: Option<Instant>,
    pub state: WorkState,
}

impl View for TileWork {
    type V = WorkView;

    open spec fn view(&self) -> WorkView {
        WorkView {
            tile_x: self.tile_x,
            tile_y: self.tile_y,
            generation: self.generation,
            pass_idx: self.pass_idx,
            total_passes: self.total_passes,
            codec: self.codec,
            payload: self.payload@,
            queued_at: self.queued_at,
            last_sent_at: self.last_sent_at,
            state: self.state,
        }
    }
}

impl WorkView {
    /// Acknowledged or superseded: nothing is left to do.
    pub open spec fn is_terminal(self) -> bool {
        self.state == WorkState::Acked || self.state == WorkState::Superseded
    }

    /// Still to be sent, or sent and not acknowledged.
    pub open spec fn is_live(self) -> bool {
        !self.is_terminal()
    }

    pub open spec fn is_tile(self, tile_x: u8, tile_y: u8) -> bool {
        self.tile_x == tile_x && self.tile_y == tile_y
    }

    /// The same work as sent at `now`.
    pub open spec fn sent_at(self, now: Instant) -> WorkView {
        WorkView { state: WorkState::InFlight, last_sent_at: Some(now), ..self }
    }

    /// The same work, superseded if it is live work of that tile.
    pub open spec fn superseded_for(self, tile_x: u8, tile_y: u8) -> WorkView {
        if self.is_tile(tile_x, tile_y) && self.is_live() {
            WorkView { state: WorkState::Superseded, ..self }
        } else {
            self
        }
    }

    /// Whether the work is due at `now`: never sent, or sent at least
    /// `retry_after` ago and not acknowledged.
    pub open spec fn is_due(self, now: Instant, retry_after: int) -> bool {
        match self.state {
            WorkState::Pending => true,
            WorkState::InFlight => match self.last_sent_at {
                Some(t) => elapsed(t, now) >= retry_after,
                None => true,
            },
            _ => false,
        }
    }
}

/// Nanoseconds from `from` to `to`, zero if `to` is the earlier one.
pub open spec fn elapsed(from: Instant, to: Instant) -> int {
    if to.nanos >= from.nanos {
        to.nanos - from.nanos
    } else {
        0
    }
}

/// The contents of a queue.
pub open spec fn works(q: Seq<TileWork>) -> Seq<WorkView> {
    q.map_values(|w: TileWork| w@)
}

/// The live work of a queue, in order.
pub open spec fn live(q: Seq<WorkView>) -> Seq<WorkView> {
    q.filter(|w: WorkView| w.is_live())
}

/// Total payload bytes.
pub open spec fn total_bytes(q: Seq<WorkView>) -> nat
    decreases q.len(),
{
    if q.len() == 0 {
        0
    } else {
        total_bytes(q.drop_last()) + q.last().payload.len()
    }
}

/// The queue with every entry taken as sent at `now`.
pub open spec fn all_sent(q: Seq<WorkView>, now: Instant) -> Seq<WorkView> {
    q.map_values(|w: WorkView| w.sent_at(now))
}

/// The queue after a tile's content has changed.
pub open spec fn superseded(q: Seq<WorkView>, tile_x: u8, tile_y: u8) -> Seq<WorkView> {
    q.map_values(|w: WorkView| w.superseded_for(tile_x, tile_y))
}

impl TileWork {
    /// A single-pass piece of raw work, never sent.
    pub fn raw_for_test(
        tile_x: u8,
        tile_y: u8,
        generation: u8,
        payload: Vec<u8>,
        now: Instant,
    ) -> (w: Self)
        ensures
            w@ == (WorkView {
                tile_x,
                tile_y,
                generation,
                pass_idx: 0,
                total_passes: 1,
                codec: Codec::Raw,
                payload: payload@,
                queued_at: now,
                last_sent_at: None,
                state: WorkState::Pending,
            }),
    {
        TileWork {
            tile_x,
            tile_y,
            generation,
            pass_idx: 0,
            total_passes: 1,
            codec: Codec::Raw,
            payload,
            queued_at: now,
            last_sent_at: None,
            state: WorkState::Pending,
        }
    }

    /// A copy with its own payload buffer.
    pub fn duplicate(&self) -> (w: Self)
        ensures
            w@ == self@,
    {
        let payload: Vec<u8> = wire::copy_range(self.payload.as_slice(), 0, self.payload.len());
        assert(payload@ =~= self.payload@);
        TileWork {
            tile_x: self.tile_x,
            tile_y: self.tile_y,
            generation: self.generation,
            pass_idx: self.pass_idx,
            total_passes: self.total_passes,
            codec: self.codec,
            payload,
            queued_at: self.queued_at,
            last_sent_at: self.last_sent_at,
            state: self.state,
        }
    }

    pub fn is_live(&self) -> (b: bool)
        ensures
            b == self@.is_live(),
    {
        match self.state {
            WorkState::Pending => true,
            WorkState::InFlight => true,
            WorkState::Acked => false,
            WorkState::Superseded => false,
        }
    }

    pub fn is_tile(&self, tile_x: u8, tile_y: u8) -> (b: bool)
        ensures
            b == self@.is_tile(tile_x, tile_y),
    {
        self.tile_x == tile_x && self.tile_y == tile_y
    }

    pub fn is_due(&self, now: Instant, retry_after: Duration) -> (b: bool)
        ensures
            b == self@.is_due(now, retry_after.nanos as int),
    {
        match self.state {
            WorkState::Pending => true,
            WorkState::InFlight => match self.last_sent_at {
                Some(t) => now.duration_since(t).nanos >= retry_after.nanos,
                None => true,
            },
            WorkState::Acked => false,
            WorkState::Superseded => false,
        }
    }
}

/// Takes the oldest entry.
pub fn pop_work(q: &mut VecDeque<TileWork>) -> (w: TileWork)
    requires
        old(q)@.len() > 0,
    ensures
        w@ == works(old(q)@)[0],
        works(final(q)@) == works(old(q)@).skip(1),
        final(q)@.len() == old(q)@.len() - 1,
{
    let w = q.pop_front().unwrap();
    assert(works(q@) =~= works(old(q)@).skip(1));
    w
}

/// Adds an entry as the newest one.
pub fn push_work(q: &mut VecDeque<TileWork>, w: TileWork)
    ensures
        works(final(q)@) == works(old(q)@).push(w@),
        final(q)@.len() == old(q)@.len() + 1,
{
    q.push_back(w);
    assert(works(q@) =~= works(old(q)@).push(w@));
}

/// Adds an entry to the emitted work.
pub fn emit_work(out: &mut Vec<TileWork>, w: TileWork)
    ensures
        works(final(out)@) == works(old(out)@).push(w@),
{
    out.push(w);
    assert(works(out@) =~= works(old(out)@).push(w@));
}

/// Drops acknowledged and superseded work.
pub fn drop_terminal(q: &mut VecDeque<TileWork>)
    ensures
        works(final(q)@) == live(works(old(q)@)),
{
    let ghost before = works(q@);
    let ghost kept: Seq<WorkView> = Seq::empty();
    let n: usize = q.len();
    let mut i: usize = 0;
    assert(live(before.take(0)) =~= Seq::empty()) by {
        reveal(Seq::filter);
    }
    assert(before.skip(0) + kept =~= before);
    while i < n
        invariant
            i <= n,
            n == before.len(),
            works(q@) == before.skip(i as int) + kept,
            q@.len() == works(q@).len(),
            kept == live(before.take(i as int)),
        decreases n - i,
    {
        let w = pop_work(q);
        assert(w@ == before[i as int]);
        proof {
            reveal(Seq::filter);
            assert(before.take(i + 1).drop_last() =~= before.take(i as int));
            assert(before.take(i + 1).last() == w@);
            assert((before.skip(i as int) + kept).skip(1) =~= before.skip(i + 1) + kept);
        }
        if w.is_live() {
            proof {
                kept = kept.push(w@);
            }
            push_work(q, w);
            assert(works(q@) =~= before.skip(i + 1) + kept);
        }
        i = i + 1;
    }
    assert(before.take(n as int) =~= before);
    assert(works(q@) =~= kept);
}

/// Marks the live work of a tile as superseded.
pub fn supersede_tile(q: &mut VecDeque<TileWork>, tile_x: u8, tile_y: u8)
    ensures
        works(final(q)@) == superseded(works(old(q)@), tile_x, tile_y),
{
    let ghost before = works(q@);
    let n: usize = q.len();
    let mut i: usize = 0;
    assert(before.skip(0) + superseded(before.take(0), tile_x, tile_y) =~= before);
    while i < n
        invariant
            i <= n,
            n == before.len(),
            works(q@) == before.skip(i as int) + superseded(
                before.take(i as int),
                tile_x,
                tile_y,
            ),
            q@.len() == works(q@).len(),
        decreases n - i,
    {
        let mut w = pop_work(q);
        assert(w@ == before[i as int]);
        if w.is_tile(tile_x, tile_y) && w.is_live() {
            w.state = WorkState::Superseded;
        }
        push_work(q, w);
        i = i + 1;
        assert(works(q@) =~= before.skip(i as int) + superseded(
            before.take(i as int),
            tile_x,
            tile_y,
        ));
    }
    assert(before.take(n as int) =~= before);
    assert(works(q@) =~= superseded(before, tile_x, tile_y));
}

/// A copy of a queue.
pub fn copies(queue: &VecDeque<TileWork>) -> (out: Vec<TileWork>)
    ensures
        works(out@) == works(queue@),
{
    let mut out: Vec<TileWork> = Vec::new();
    let n: usize = queue.len();
    let mut i: usize = 0;
    let ghost all = works(queue@);
    assert(works(out@) =~= all.take(0));
    while i < n
        invariant
            i <= n,
            n == queue@.len(),
            all == works(queue@),
            works(out@) == all.take(i as int),
        decreases n - i,
    {
        emit_work(&mut out, queue[i].duplicate());
        i = i + 1;
        assert(works(out@) =~= all.take(i as int));
    }
    assert(all.take(n as int) =~= all);
    out
}

} // verus!
