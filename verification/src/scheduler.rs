//! Round-robin tile-work scheduler with acknowledgement-driven retry.
//!
//! Every tile emission goes through here.  Single-pass work waits in the
//! priority queue until it is acknowledged; the passes of progressive Cdf53
//! work wait in the refinement queue until they are sent.
pub mod drain;
pub mod guarantees;
pub mod slab;
pub mod slots;
pub mod tally;
pub mod work;

pub use crate::scheduler::slab::{Handle, Slab};
pub use crate::scheduler::slots::{SlotMap, TileSlot, PASS_SLOTS};
pub use crate::scheduler::work::{TileWork, WorkState};

use crate::bits;
use crate::fragment_coverage::FragmentCoverage;
use crate::protocol::Codec;
use crate::scheduler::drain::{drain_priority_queue, drain_refinement_pass_major};
use crate::scheduler::tally::count;
use crate::scheduler::work::{pop_work, push_work, supersede_tile, WorkView};
use crate::seqs;
use crate::time::{Duration, Instant};
use std::collections::{HashMap, HashSet, VecDeque};
use vstd::prelude::*;

verus! {

broadcast use {
    vstd::std_specs::vecdeque::group_vec_dequeue_axioms,
    vstd::std_specs::hash::group_hash_axioms,
};

/// Number of progressive passes of the Cdf53 codec.
pub const CDF53_PASS_COUNT: u8 = 14;

/// The round-trip estimate before any is known, in nanoseconds.
pub const DEFAULT_RTT_NANOS: u128 = 20_000_000;

/// Consecutive rounds before the refinement share is adjusted.
pub const ADJUST_AFTER_ROUNDS: u32 = 10;

/// Smallest refinement share, in thousandths of the budget.
pub const MIN_FRACTION_PERMILLE: u32 = 50;

/// Largest refinement share, in thousandths of the budget.
pub const MAX_FRACTION_PERMILLE: u32 = 200;

/// Work that was superseded: what the palette bookkeeping needs of it.
#[derive(Debug, Clone, Copy, PartialEq, Eq, Structural)]
pub struct ResolvedTileWork {
    pub tile_x: u8,
    pub tile_y: u8,
    pub generation: u8,
    pub pass: u8,
    pub codec: Codec,
    /// For `Codec::PalRle`, the persistent palette id (payload byte 1).
    pub palette_id: Option<u8>,
    /// Acknowledged (true) or superseded (false).
    pub via_ack: bool,
}

/// How well recent emissions were delivered, and the share of the budget that
/// refinement gets on that account.
#[derive(Debug, Clone, Copy, PartialEq, Eq, Structural)]
pub struct DeliveryWindow {
    /// Work emitted since the window was opened.
    pub emitted: u32,
    /// Passes newly acknowledged since the window was opened.
    pub acked: u32,
    /// Consecutive rounds in which less than half was acknowledged.
    pub low_rounds: u32,
    /// Consecutive rounds in which at least four fifths were acknowledged.
    pub high_rounds: u32,
    /// Share of the budget for refinement, in thousandths.
    pub fraction_permille: u32,
}

impl DeliveryWindow {
    /// The share is one of its three values, and no streak is overdue.
    pub open spec fn wf(self) -> bool {
        &&& self.fraction_permille == 50 || self.fraction_permille == 100
            || self.fraction_permille == 200
        &&& self.low_rounds < ADJUST_AFTER_ROUNDS
        &&& self.high_rounds < ADJUST_AFTER_ROUNDS
    }

    /// The window after the round it describes.  An empty window is no signal
    /// and stays as it is.  Ten low rounds in a row halve the share, ten high
    /// ones double it, within its bounds; a middling round takes one off both
    /// streaks.
    pub open spec fn adjusted(self) -> DeliveryWindow {
        if self.emitted == 0 {
            self
        } else if 2 * self.acked < self.emitted {
            let streak = self.low_rounds + 1;
            DeliveryWindow {
                emitted: 0,
                acked: 0,
                high_rounds: 0,
                low_rounds: (if streak >= ADJUST_AFTER_ROUNDS {
                    0
                } else {
                    streak as u32
                }),
                fraction_permille: (if streak >= ADJUST_AFTER_ROUNDS {
                    if self.fraction_permille / 2 >= MIN_FRACTION_PERMILLE {
                        self.fraction_permille / 2
                    } else {
                        MIN_FRACTION_PERMILLE
                    }
                } else {
                    self.fraction_permille
                }),
            }
        } else if 5 * self.acked >= 4 * self.emitted {
            let streak = self.high_rounds + 1;
            DeliveryWindow {
                emitted: 0,
                acked: 0,
                low_rounds: 0,
                high_rounds: (if streak >= ADJUST_AFTER_ROUNDS {
                    0
                } else {
                    streak as u32
                }),
                fraction_permille: (if streak >= ADJUST_AFTER_ROUNDS {
                    if 2 * self.fraction_permille <= MAX_FRACTION_PERMILLE {
                        (2 * self.fraction_permille) as u32
                    } else {
                        MAX_FRACTION_PERMILLE
                    }
                } else {
                    self.fraction_permille
                }),
            }
        } else {
            DeliveryWindow {
                emitted: 0,
                acked: 0,
                low_rounds: (if self.low_rounds > 0 {
                    (self.low_rounds - 1) as u32
                } else {
                    0
                }),
                high_rounds: (if self.high_rounds > 0 {
                    (self.high_rounds - 1) as u32
                } else {
                    0
                }),
                fraction_permille: self.fraction_permille,
            }
        }
    }

    /// Closes the round.
    pub fn adjust(self) -> (r: DeliveryWindow)
        requires
            self.wf(),
        ensures
            r == self.adjusted(),
            r.wf(),
    {
        if self.emitted == 0 {
            return self;
        }
        let acked: u64 = self.acked as u64;
        let emitted: u64 = self.emitted as u64;
        let mut low_rounds: u32 = self.low_rounds;
        let mut high_rounds: u32 = self.high_rounds;
        let mut fraction: u32 = self.fraction_permille;
        if 2 * acked < emitted {
            low_rounds = low_rounds + 1;
            high_rounds = 0;
            if low_rounds >= ADJUST_AFTER_ROUNDS {
                fraction = if fraction / 2 >= MIN_FRACTION_PERMILLE {
                    fraction / 2
                } else {
                    MIN_FRACTION_PERMILLE
                };
                low_rounds = 0;
            }
        } else if 5 * acked >= 4 * emitted {
            high_rounds = high_rounds + 1;
            low_rounds = 0;
            if high_rounds >= ADJUST_AFTER_ROUNDS {
                fraction = if 2 * fraction <= MAX_FRACTION_PERMILLE {
                    2 * fraction
                } else {
                    MAX_FRACTION_PERMILLE
                };
                high_rounds = 0;
            }
        } else {
            low_rounds = low_rounds.saturating_sub(1);
            high_rounds = high_rounds.saturating_sub(1);
        }
        DeliveryWindow { emitted: 0, acked: 0, low_rounds, high_rounds, fraction_permille: fraction }
    }
}

/// The refinement share of `budget`, rounded down.
pub open spec fn refinement_share(budget: nat, fraction_permille: u32) -> nat {
    budget * fraction_permille as nat / 1000
}

/// The budgets of the priority queue and of the refinement queue.  A queue
/// that is empty leaves the whole budget to the other.
pub open spec fn split_budget(
    budget: nat,
    fraction_permille: u32,
    priority_empty: bool,
    refinement_empty: bool,
) -> (nat, nat) {
    if refinement_empty {
        (budget, 0)
    } else if priority_empty {
        (0, budget)
    } else {
        let share = refinement_share(budget, fraction_permille);
        ((budget - share) as nat, share)
    }
}

/// Computes `split_budget`.
fn split(budget: usize, fraction_permille: u32, priority_empty: bool, refinement_empty: bool) -> (r:
    (usize, usize))
    requires
        fraction_permille <= 1000,
    ensures
        (r.0 as nat, r.1 as nat) == split_budget(
            budget as nat,
            fraction_permille,
            priority_empty,
            refinement_empty,
        ),
{
    if refinement_empty {
        return (budget, 0);
    }
    if priority_empty {
        return (0, budget);
    }
    assert(0 <= budget * fraction_permille <= budget * 1000) by (nonlinear_arith)
        requires
            fraction_permille <= 1000,
    ;
    let share: usize = (budget as u128 * fraction_permille as u128 / 1000) as usize;
    (budget - share, share)
}

/// The tile of a key of the acknowledgement table.
pub open spec fn ack_key(tile_x: u8, tile_y: u8, generation: u8) -> u32 {
    (tile_x + 0x100 * tile_y + 0x1_0000 * generation) as u32
}

fn pack_key(tile_x: u8, tile_y: u8, generation: u8) -> (k: u32)
    ensures
        k == ack_key(tile_x, tile_y, generation),
{
    tile_x as u32 + 0x100 * tile_y as u32 + 0x1_0000 * generation as u32
}

/// The scheduler of one session's tile emissions.
pub struct Scheduler {
    cols: u32,
    rows: u32,
    /// Per-tile generation, `tile_y * cols + tile_x`; wraps after fifteen.
    generations: Vec<u8>,
    priority_queue: VecDeque<TileWork>,
    refinement_queue: VecDeque<TileWork>,
    rtt: Duration,
    window: DeliveryWindow,
    /// Per (tile, generation): which passes were acknowledged.
    cdf53_passes_acked: HashMap<u32, u16>,
}

/// State of a [`Scheduler`].
#[verifier::ext_equal]
pub struct SchedulerView {
    pub cols: u32,
    pub rows: u32,
    /// The present generation of every tile.
    pub gens: Seq<u8>,
    pub priority: Seq<WorkView>,
    pub refinement: Seq<WorkView>,
    pub rtt: Duration,
    pub delivery: DeliveryWindow,
    /// Acknowledged passes by tile and generation.
    pub acks: Map<u32, u16>,
}

impl View for Scheduler {
    type V = SchedulerView;

    open spec fn view(&self) -> SchedulerView {
        SchedulerView {
            cols: self.grid_cols(),
            rows: self.grid_rows(),
            gens: self.gens(),
            priority: self.priority(),
            refinement: self.refinement(),
            rtt: self.rtt_estimate(),
            delivery: self.delivery(),
            acks: self.acks(),
        }
    }
}

/// The acknowledgement table without those of a tile.
pub open spec fn acks_without(acks: Map<u32, u16>, tile_x: u8, tile_y: u8) -> Map<u32, u16> {
    acks.remove_keys(
        Set::new(|k: u32| k % 0x1_0000 == tile_x + 0x100 * tile_y && k / 0x1_0000 < 256),
    )
}

impl SchedulerView {
    /// Where a tile's generation is kept.
    pub open spec fn at(self, tile_x: u8, tile_y: u8) -> int {
        tile_y * self.cols + tile_x
    }

    /// The tile's next generation.
    pub open spec fn next_gen(self, tile_x: u8, tile_y: u8) -> u8 {
        ((self.gens[self.at(tile_x, tile_y)] + 1) % 16) as u8
    }

    /// A tile's generation was bumped: what was queued for it is superseded.
    pub open spec fn bumped(self, tile_x: u8, tile_y: u8) -> SchedulerView {
        SchedulerView {
            gens: self.gens.update(self.at(tile_x, tile_y), self.next_gen(tile_x, tile_y)),
            priority: work::superseded(self.priority, tile_x, tile_y),
            refinement: work::superseded(self.refinement, tile_x, tile_y),
            acks: acks_without(self.acks, tile_x, tile_y),
            ..self
        }
    }

    /// The same, with the superseded work dropped from the queues.
    pub open spec fn bumped_and_swept(self, tile_x: u8, tile_y: u8) -> SchedulerView {
        let b = self.bumped(tile_x, tile_y);
        SchedulerView {
            priority: not_superseded(b.priority),
            refinement: not_superseded(b.refinement),
            ..b
        }
    }

    /// Work was added to the priority queue.
    pub open spec fn enqueued(self, w: WorkView, now: Instant) -> SchedulerView {
        SchedulerView {
            priority: self.priority.push(
                WorkView { queued_at: now, last_sent_at: None, state: WorkState::Pending, ..w },
            ),
            ..self
        }
    }

    /// Passes of a tile were added to the refinement queue.
    pub open spec fn refined(
        self,
        tile_x: u8,
        tile_y: u8,
        generation: u8,
        passes: Seq<Seq<u8>>,
        now: Instant,
    ) -> SchedulerView {
        SchedulerView {
            refinement: self.refinement + Seq::new(
                passes.len(),
                |i: int|
                    refinement_work(
                        tile_x,
                        tile_y,
                        generation,
                        (i % 256) as u8,
                        (passes.len() % 256) as u8,
                        passes[i],
                        now,
                    ),
            ),
            ..self
        }
    }

    /// A pass of a Cdf53 tile was acknowledged.
    pub open spec fn cdf53_acked(
        self,
        tile_x: u8,
        tile_y: u8,
        generation: u8,
        pass_idx: u8,
    ) -> SchedulerView {
        let key = ack_key(tile_x, tile_y, generation);
        let before: u16 = if self.acks.dom().contains(key) {
            self.acks[key]
        } else {
            0
        };
        let bit = (pass_idx % 16) as u8;
        SchedulerView {
            acks: self.acks.insert(key, bits::with_bit(before, bit)),
            delivery: DeliveryWindow {
                acked: (if bits::has_bit(before, bit) || self.delivery.acked == u32::MAX {
                    self.delivery.acked
                } else {
                    (self.delivery.acked + 1) as u32
                }),
                ..self.delivery
            },
            ..self
        }
    }

    /// The first matching entry in flight was acknowledged.
    pub open spec fn marked(
        self,
        tile_x: u8,
        tile_y: u8,
        generation: u8,
        pass_idx: u8,
    ) -> SchedulerView {
        SchedulerView {
            priority: first_acked(self.priority, tile_x, tile_y, generation, pass_idx),
            refinement: (if awaits_ack(self.priority, tile_x, tile_y, generation, pass_idx) {
                self.refinement
            } else {
                first_acked(self.refinement, tile_x, tile_y, generation, pass_idx)
            }),
            ..self
        }
    }

    /// For another grid: nothing is queued and every generation is zero.
    pub open spec fn resized(self, cols: u32, rows: u32) -> SchedulerView {
        SchedulerView {
            cols,
            rows,
            gens: Seq::new((cols * rows) as nat, |i: int| 0u8),
            priority: Seq::empty(),
            refinement: Seq::empty(),
            acks: Map::empty(),
            ..self
        }
    }
}

impl Scheduler {
    pub closed spec fn grid_cols(&self) -> u32 {
        self.cols
    }

    pub closed spec fn grid_rows(&self) -> u32 {
        self.rows
    }

    /// The generations in row-major order.
    pub closed spec fn gens(&self) -> Seq<u8> {
        self.generations@
    }

    /// The priority queue.
    pub closed spec fn priority(&self) -> Seq<WorkView> {
        work::works(self.priority_queue@)
    }

    /// The refinement queue.
    pub closed spec fn refinement(&self) -> Seq<WorkView> {
        work::works(self.refinement_queue@)
    }

    pub closed spec fn rtt_estimate(&self) -> Duration {
        self.rtt
    }

    pub closed spec fn delivery(&self) -> DeliveryWindow {
        self.window
    }

    /// The acknowledgement table.
    pub closed spec fn acks(&self) -> Map<u32, u16> {
        self.cdf53_passes_acked@
    }

    /// The passes acknowledged for a generation of a tile, if any was.
    pub open spec fn acked(&self, tile_x: u8, tile_y: u8, generation: u8) -> Option<u16> {
        if self.acks().dom().contains(ack_key(tile_x, tile_y, generation)) {
            Some(self.acks()[ack_key(tile_x, tile_y, generation)])
        } else {
            None
        }
    }

    /// The acknowledged passes, none if there is no record.
    pub open spec fn acked_or_none(&self, tile_x: u8, tile_y: u8, generation: u8) -> u16 {
        match self.acked(tile_x, tile_y, generation) {
            Some(m) => m,
            None => 0,
        }
    }

    /// Where the tile's generation is kept.
    pub open spec fn at(&self, tile_x: u8, tile_y: u8) -> int {
        tile_y * self.grid_cols() + tile_x
    }

    /// The scheduler's invariant.
    pub open spec fn wf(&self) -> bool {
        &&& self.gens().len() == self.grid_cols() * self.grid_rows()
        &&& forall|i: int| 0 <= i < self.gens().len() ==> (#[trigger] self.gens()[i]) < 16
        &&& self.delivery().wf()
        &&& 2 * self.rtt_estimate().nanos <= u128::MAX
    }

    /// Nothing but the queues differs.
    pub open spec fn same_but_queues(&self, before: Scheduler) -> bool {
        &&& self.grid_cols() == before.grid_cols()
        &&& self.grid_rows() == before.grid_rows()
        &&& self.gens() == before.gens()
        &&& self.rtt_estimate() == before.rtt_estimate()
        &&& self.delivery() == before.delivery()
        &&& self.acks() == before.acks()
    }

    pub fn new(cols: u32, rows: u32) -> (s: Self)
        requires
            cols * rows <= usize::MAX,
        ensures
            s.wf(),
            s.grid_cols() == cols,
            s.grid_rows() == rows,
            s.gens() == Seq::new((cols * rows) as nat, |i: int| 0u8),
            s.priority() == Seq::<WorkView>::empty(),
            s.refinement() == Seq::<WorkView>::empty(),
            s.rtt_estimate().nanos == DEFAULT_RTT_NANOS,
            s.delivery() == (DeliveryWindow {
                emitted: 0,
                acked: 0,
                low_rounds: 0,
                high_rounds: 0,
                fraction_permille: MAX_FRACTION_PERMILLE,
            }),
            s.acks() == Map::<u32, u16>::empty(),
    {
        assert(cols * rows >= 0) by (nonlinear_arith);
        let s = Scheduler {
            cols,
            rows,
            generations: vec![0u8; cols as usize * rows as usize],
            priority_queue: VecDeque::new(),
            refinement_queue: VecDeque::new(),
            rtt: Duration { nanos: DEFAULT_RTT_NANOS },
            window: DeliveryWindow {
                emitted: 0,
                acked: 0,
                low_rounds: 0,
                high_rounds: 0,
                fraction_permille: MAX_FRACTION_PERMILLE,
            },
            cdf53_passes_acked: HashMap::new(),
        };
        assert(s.gens() =~= Seq::new((cols * rows) as nat, |i: int| 0u8));
        assert(s.priority() =~= Seq::<WorkView>::empty());
        assert(s.refinement() =~= Seq::<WorkView>::empty());
        s
    }

    /// Gives the grid another size: generations start over, and all work and
    /// all acknowledgements are gone.
    pub fn resize(&mut self, cols: u32, rows: u32)
        requires
            old(self).wf(),
            cols * rows <= usize::MAX,
        ensures
            final(self).wf(),
            final(self).grid_cols() == cols,
            final(self).grid_rows() == rows,
            final(self).gens() == Seq::new((cols * rows) as nat, |i: int| 0u8),
            final(self).priority() == Seq::<WorkView>::empty(),
            final(self).refinement() == Seq::<WorkView>::empty(),
            final(self).acks() == Map::<u32, u16>::empty(),
            final(self).rtt_estimate() == old(self).rtt_estimate(),
            final(self).delivery() == old(self).delivery(),
    {
        assert(cols * rows >= 0) by (nonlinear_arith);
        self.cols = cols;
        self.rows = rows;
        self.generations = vec![0u8; cols as usize * rows as usize];
        self.priority_queue.clear();
        self.refinement_queue.clear();
        self.cdf53_passes_acked.clear();
        assert(self.gens() =~= Seq::new((cols * rows) as nat, |i: int| 0u8));
        assert(self.priority() =~= Seq::<WorkView>::empty());
        assert(self.refinement() =~= Seq::<WorkView>::empty());
    }

    /// Drops all work.  Generations and acknowledgements are kept, so a late
    /// acknowledgement from the previous session finds nothing to act on.
    pub fn clear(&mut self)
        ensures
            final(self).same_but_queues(*old(self)),
            final(self).priority() == Seq::<WorkView>::empty(),
            final(self).refinement() == Seq::<WorkView>::empty(),
    {
        self.priority_queue.clear();
        self.refinement_queue.clear();
        assert(self.priority() =~= Seq::<WorkView>::empty());
        assert(self.refinement() =~= Seq::<WorkView>::empty());
    }

    /// Sets the round-trip estimate; unacknowledged work is sent again after
    /// twice that time, which the clock must be able to express.
    pub fn set_rtt(&mut self, rtt: Duration)
        requires
            old(self).wf(),
            2 * rtt.nanos <= u128::MAX,
        ensures
            final(self).wf(),
            final(self).rtt_estimate() == rtt,
            final(self).grid_cols() == old(self).grid_cols(),
            final(self).grid_rows() == old(self).grid_rows(),
            final(self).gens() == old(self).gens(),
            final(self).priority() == old(self).priority(),
            final(self).refinement() == old(self).refinement(),
            final(self).delivery() == old(self).delivery(),
            final(self).acks() == old(self).acks(),
    {
        self.rtt = rtt;
    }

    pub fn cols(&self) -> (c: u32)
        ensures
            c == self.grid_cols(),
    {
        self.cols
    }

    pub fn rows(&self) -> (r: u32)
        ensures
            r == self.grid_rows(),
    {
        self.rows
    }

    /// Entries in the priority queue, terminal ones included.
    pub fn queue_len(&self) -> (n: usize)
        ensures
            n == self.priority().len(),
    {
        self.priority_queue.len()
    }

    /// Entries in the refinement queue, terminal ones included.
    pub fn refinement_queue_len(&self) -> (n: usize)
        ensures
            n == self.refinement().len(),
    {
        self.refinement_queue.len()
    }

    /// The tile's generation; 0 where there is none.
    pub fn generation_for(&self, tile_x: u8, tile_y: u8) -> (g: u8)
        requires
            self.wf(),
        ensures
            g == (if self.at(tile_x, tile_y) < self.gens().len() {
                self.gens()[self.at(tile_x, tile_y)]
            } else {
                0
            }),
    {
        match self.generation_index(tile_x, tile_y) {
            Some(i) => self.generations[i],
            None => 0,
        }
    }

    fn generation_index(&self, tile_x: u8, tile_y: u8) -> (r: Option<usize>)
        ensures
            match r {
                Some(i) => i == self.at(tile_x, tile_y) && i < self.gens().len(),
                None => self.at(tile_x, tile_y) >= self.gens().len(),
            },
    {
        assert(0 <= tile_y * self.cols <= 255 * 0xFFFF_FFFF) by (nonlinear_arith);
        let idx: u64 = tile_y as u64 * self.cols as u64 + tile_x as u64;
        assert(self.generations.len() == self.generations@.len());
        if idx < self.generations.len() as u64 {
            Some(idx as usize)
        } else {
            None
        }
    }

    /// Adds single-pass work, to be sent on a coming tick.
    pub fn enqueue(&mut self, work: TileWork, now: Instant)
        ensures
            final(self).same_but_queues(*old(self)),
            final(self).refinement() == old(self).refinement(),
            final(self).priority() == old(self).priority().push(
                (WorkView {
                    queued_at: now,
                    last_sent_at: None,
                    state: WorkState::Pending,
                    ..work@
                }),
            ),
    {
        let mut w = work;
        w.queued_at = now;
        w.last_sent_at = None;
        w.state = WorkState::Pending;
        push_work(&mut self.priority_queue, w);
    }

    /// A copy of the priority queue.
    pub fn peek_for_test(&self) -> (out: Vec<TileWork>)
        ensures
            work::works(out@) == self.priority(),
    {
        work::copies(&self.priority_queue)
    }

    /// A copy of the refinement queue.
    pub fn refinement_for_test(&self) -> (out: Vec<TileWork>)
        ensures
            work::works(out@) == self.refinement(),
    {
        work::copies(&self.refinement_queue)
    }

    /// Tile and state of each entry of the priority queue.
    pub fn queue_states_for_test(&self) -> (out: Vec<(u8, u8, WorkState)>)
        ensures
            out@ == self.priority().map_values(|w: WorkView| (w.tile_x, w.tile_y, w.state)),
    {
        let mut out: Vec<(u8, u8, WorkState)> = Vec::new();
        let n: usize = self.priority_queue.len();
        let mut i: usize = 0;
        while i < n
            invariant
                i <= n,
                n == self.priority_queue@.len(),
                out@ == self.priority().take(i as int).map_values(
                    |w: WorkView| (w.tile_x, w.tile_y, w.state),
                ),
            decreases n - i,
        {
            let w = &self.priority_queue[i];
            out.push((w.tile_x, w.tile_y, w.state));
            i = i + 1;
            assert(out@ =~= self.priority().take(i as int).map_values(
                |w: WorkView| (w.tile_x, w.tile_y, w.state),
            ));
        }
        assert(self.priority().take(n as int) =~= self.priority());
        out
    }

    /// The content of a tile has changed: advances its generation, marks its
    /// live work superseded and forgets its acknowledgements.  Returns the new
    /// generation.  The tile's generation must be on the grid.
    pub fn bump_generation(&mut self, tile_x: u8, tile_y: u8) -> (g: u8)
        requires
            old(self).wf(),
            old(self).at(tile_x, tile_y) < old(self).gens().len(),
        ensures
            final(self).wf(),
            g == (old(self).gens()[old(self).at(tile_x, tile_y)] + 1) % 16,
            final(self).gens() == old(self).gens().update(old(self).at(tile_x, tile_y), g),
            final(self).priority() == work::superseded(old(self).priority(), tile_x, tile_y),
            final(self).refinement() == work::superseded(old(self).refinement(), tile_x, tile_y),
            forgets_tile(old(self).acks(), final(self).acks(), tile_x, tile_y),
            final(self).grid_cols() == old(self).grid_cols(),
            final(self).grid_rows() == old(self).grid_rows(),
            final(self).rtt_estimate() == old(self).rtt_estimate(),
            final(self).delivery() == old(self).delivery(),
    {
        let idx: usize = match self.generation_index(tile_x, tile_y) {
            Some(i) => i,
            None => 0,
        };
        let new_gen: u8 = (self.generations[idx] + 1) % 16;
        self.generations.set(idx, new_gen);
        supersede_tile(&mut self.priority_queue, tile_x, tile_y);
        supersede_tile(&mut self.refinement_queue, tile_x, tile_y);
        forget_tile(&mut self.cdf53_passes_acked, tile_x, tile_y);
        new_gen
    }

    /// Like `bump_generation`, but drops the superseded work from both queues
    /// and returns it, the priority queue's first.
    pub fn bump_generation_collecting(&mut self, tile_x: u8, tile_y: u8) -> (r: (
        u8,
        Vec<ResolvedTileWork>,
    ))
        requires
            old(self).wf(),
            old(self).at(tile_x, tile_y) < old(self).gens().len(),
        ensures
            final(self).wf(),
            r.0 == (old(self).gens()[old(self).at(tile_x, tile_y)] + 1) % 16,
            r.1@ == resolved_for(old(self).priority(), tile_x, tile_y) + resolved_for(
                old(self).refinement(),
                tile_x,
                tile_y,
            ),
            final(self).gens() == old(self).gens().update(old(self).at(tile_x, tile_y), r.0),
            final(self).priority() == not_superseded(
                work::superseded(old(self).priority(), tile_x, tile_y),
            ),
            final(self).refinement() == not_superseded(
                work::superseded(old(self).refinement(), tile_x, tile_y),
            ),
            forgets_tile(old(self).acks(), final(self).acks(), tile_x, tile_y),
            final(self).grid_cols() == old(self).grid_cols(),
            final(self).grid_rows() == old(self).grid_rows(),
            final(self).rtt_estimate() == old(self).rtt_estimate(),
            final(self).delivery() == old(self).delivery(),
    {
        let mut resolved: Vec<ResolvedTileWork> = Vec::new();
        collect_resolved(&self.priority_queue, tile_x, tile_y, &mut resolved);
        collect_resolved(&self.refinement_queue, tile_x, tile_y, &mut resolved);
        assert(resolved@ =~= resolved_for(self.priority(), tile_x, tile_y) + resolved_for(
            self.refinement(),
            tile_x,
            tile_y,
        ));
        let new_gen: u8 = self.bump_generation(tile_x, tile_y);
        drop_superseded(&mut self.priority_queue);
        drop_superseded(&mut self.refinement_queue);
        (new_gen, resolved)
    }

    /// Records that a pass of a Cdf53 tile was acknowledged.  A repeated
    /// acknowledgement is not counted toward the delivery window.
    pub fn record_cdf53_ack(&mut self, tile_x: u8, tile_y: u8, generation: u8, pass_idx: u8)
        requires
            old(self).wf(),
        ensures
            final(self).wf(),
            ({
                let before = old(self).acked_or_none(tile_x, tile_y, generation);
                let bit = (pass_idx % 16) as u8;
                &&& final(self).acks() == old(self).acks().insert(
                    ack_key(tile_x, tile_y, generation),
                    bits::with_bit(before, bit),
                )
                &&& final(self).delivery() == (DeliveryWindow {
                    acked: (if bits::has_bit(before, bit) || old(self).delivery().acked
                        == u32::MAX {
                        old(self).delivery().acked
                    } else {
                        (old(self).delivery().acked + 1) as u32
                    }),
                    ..old(self).delivery()
                })
            }),
            final(self).grid_cols() == old(self).grid_cols(),
            final(self).grid_rows() == old(self).grid_rows(),
            final(self).gens() == old(self).gens(),
            final(self).rtt_estimate() == old(self).rtt_estimate(),
            final(self).priority() == old(self).priority(),
            final(self).refinement() == old(self).refinement(),
    {
        let before: u16 = self.acked_passes(tile_x, tile_y, generation);
        let bit: u8 = pass_idx % 16;
        self.cdf53_passes_acked.insert(
            pack_key(tile_x, tile_y, generation),
            bits::set_bit(before, bit),
        );
        if !bits::test_bit(before, bit) {
            self.window.acked = self.window.acked.saturating_add(1);
        }
    }

    /// The acknowledged passes of a generation of a tile.
    fn acked_passes(&self, tile_x: u8, tile_y: u8, generation: u8) -> (m: u16)
        ensures
            m == self.acked_or_none(tile_x, tile_y, generation),
    {
        match self.cdf53_passes_acked.get(&pack_key(tile_x, tile_y, generation)) {
            Some(m) => *m,
            None => 0,
        }
    }

    /// Marks the first matching in-flight entry as acknowledged, so that it is
    /// not sent again; looks in the priority queue first.  An acknowledgement
    /// that matches nothing in flight changes nothing.
    pub fn mark_acked(&mut self, tile_x: u8, tile_y: u8, generation: u8, pass_idx: u8)
        ensures
            final(self).same_but_queues(*old(self)),
            final(self).priority() == first_acked(
                old(self).priority(),
                tile_x,
                tile_y,
                generation,
                pass_idx,
            ),
            final(self).refinement() == (if awaits_ack(
                old(self).priority(),
                tile_x,
                tile_y,
                generation,
                pass_idx,
            ) {
                old(self).refinement()
            } else {
                first_acked(old(self).refinement(), tile_x, tile_y, generation, pass_idx)
            }),
    {
        if !ack_first(&mut self.priority_queue, tile_x, tile_y, generation, pass_idx) {
            let _ = ack_first(&mut self.refinement_queue, tile_x, tile_y, generation, pass_idx);
        }
    }

    pub fn delivery_window_acked_for_test(&self) -> (n: u32)
        ensures
            n == self.delivery().acked,
    {
        self.window.acked
    }

    /// Whether there is a record of the tile's generation and every pass below
    /// `max_passes` in it is acknowledged.
    pub fn tile_fully_acked(&self, tile_x: u8, tile_y: u8, generation: u8, max_passes: u8) -> (b:
        bool)
        ensures
            b == (self.acked(tile_x, tile_y, generation) is Some && forall|p: u8|
                p < 16 && p < max_passes ==> #[trigger] bits::has_bit(
                    self.acked_or_none(tile_x, tile_y, generation),
                    p,
                )),
    {
        let needed: u16 = bits::low_bits(max_passes);
        match self.cdf53_passes_acked.get(&pack_key(tile_x, tile_y, generation)) {
            Some(m) => {
                proof {
                    assert(self.acked_or_none(tile_x, tile_y, generation) == *m);
                    bits::covers_bits(*m, needed);
                    assert forall|p: u8| p < 16 implies #[trigger] bits::has_bit(needed, p) == (p
                        < max_passes) by {
                        bits::low_mask_has(max_passes, p);
                    }
                }
                (*m & needed) == needed
            },
            None => false,
        }
    }

    /// Number of distinct passes acknowledged.
    pub fn cdf53_passes_acked_count(&self, tile_x: u8, tile_y: u8, generation: u8) -> (n: u8)
        ensures
            n == bits::count_bits(self.acked_or_none(tile_x, tile_y, generation)),
    {
        proof {
            count_of_none();
        }
        bits::count_ones(self.acked_passes(tile_x, tile_y, generation))
    }

    pub fn cdf53_passes_acked_for_test(&self, tile_x: u8, tile_y: u8, generation: u8) -> (n: u8)
        ensures
            n == bits::count_bits(self.acked_or_none(tile_x, tile_y, generation)),
    {
        self.cdf53_passes_acked_count(tile_x, tile_y, generation)
    }

    /// The passes below `max_passes` that are not acknowledged.
    pub fn cdf53_unacked_pass_mask(
        &self,
        tile_x: u8,
        tile_y: u8,
        generation: u8,
        max_passes: u8,
    ) -> (m: u16)
        ensures
            forall|p: u8|
                p < 16 ==> #[trigger] bits::has_bit(m, p) == (p < max_passes && !bits::has_bit(
                    self.acked_or_none(tile_x, tile_y, generation),
                    p,
                )),
            m == bits::low_mask(max_passes) & !self.acked_or_none(tile_x, tile_y, generation),
    {
        let full: u16 = bits::low_bits(max_passes);
        let acked: u16 = self.acked_passes(tile_x, tile_y, generation);
        proof {
            assert forall|p: u8| p < 16 implies #[trigger] bits::has_bit(full & !acked, p) == (p
                < max_passes && !bits::has_bit(acked, p)) by {
                bits::difference_has(full, acked, p);
                bits::low_mask_has(max_passes, p);
            }
        }
        full & !acked
    }

    /// The candidates `(tile, generation, max_passes)` for which fewer than
    /// `max_passes` passes are acknowledged, in order.
    pub fn cdf53_unacked_tiles_for_gen(&self, candidates: &[((u8, u8), u8, u8)]) -> (out: Vec<
        (u8, u8),
    >)
        ensures
            out@ == self.unacked_among(candidates@),
    {
        let mut out: Vec<(u8, u8)> = Vec::new();
        let mut i: usize = 0;
        assert(candidates@.take(0) =~= Seq::empty());
        while i < candidates.len()
            invariant
                i <= candidates@.len(),
                out@ == self.unacked_among(candidates@.take(i as int)),
            decreases candidates@.len() - i,
        {
            let ((tx, ty), generation, max_passes) = candidates[i];
            proof {
                assert(candidates@.take(i + 1).drop_last() =~= candidates@.take(i as int));
                assert(candidates@.take(i + 1).last() == candidates@[i as int]);
            }
            if self.cdf53_passes_acked_count(tx, ty, generation) < max_passes {
                out.push((tx, ty));
            }
            i = i + 1;
        }
        assert(candidates@.take(candidates@.len() as int) =~= candidates@);
        out
    }

    /// The tiles of those candidates that lack an acknowledgement.
    pub open spec fn unacked_among(&self, candidates: Seq<((u8, u8), u8, u8)>) -> Seq<(u8, u8)>
        decreases candidates.len(),
    {
        if candidates.len() == 0 {
            Seq::empty()
        } else {
            let (tile, generation, max_passes) = candidates.last();
            let front = self.unacked_among(candidates.drop_last());
            if bits::count_bits(self.acked_or_none(tile.0, tile.1, generation)) < max_passes {
                front.push(tile)
            } else {
                front
            }
        }
    }

    /// Whether live refinement work of the tile is queued.
    pub fn refinement_queue_holds_tile(&self, tile_x: u8, tile_y: u8) -> (b: bool)
        ensures
            b == exists|i: int|
                0 <= i < self.refinement().len() && (#[trigger] self.refinement()[i]).is_tile(
                    tile_x,
                    tile_y,
                ) && self.refinement()[i].is_live(),
    {
        let n: usize = self.refinement_queue.len();
        let mut i: usize = 0;
        while i < n
            invariant
                i <= n,
                n == self.refinement_queue@.len(),
                forall|j: int|
                    0 <= j < i ==> !((#[trigger] self.refinement()[j]).is_tile(tile_x, tile_y)
                        && self.refinement()[j].is_live()),
            decreases n - i,
        {
            let w = &self.refinement_queue[i];
            assert(self.refinement()[i as int] == w@);
            if w.is_tile(tile_x, tile_y) && w.is_live() {
                return true;
            }
            i = i + 1;
        }
        false
    }

    /// Number of distinct tiles with refinement work that is not acknowledged,
    /// its low thirty-two bits.
    pub fn refinement_deficit_tiles(&self) -> (n: u32)
        ensures
            n == crate::protocol::low32(deficit(self.refinement()).len() as int),
    {
        deficit_tiles(&self.refinement_queue)
    }

    /// Tile, generation and number of passes of all Cdf53 work outstanding:
    /// what waits in the refinement queue, and what is in flight according to
    /// the coverage handed in.  A number above 255 is given as 255.
    pub fn pending_refinement_snapshot(&self, coverage_snapshot: &[FragmentCoverage]) -> (out: Vec<
        (u8, u8, u8, u8),
    >)
        ensures
            tally::is_tally(
                out@,
                tally::live_versions(self.refinement()) + tally::covered_versions(
                    coverage_snapshot@,
                ),
            ),
    {
        let mut out: Vec<(u8, u8, u8, u8)> = Vec::new();
        let ghost q = self.refinement();
        let ghost c = coverage_snapshot@;
        let n: usize = self.refinement_queue.len();
        let mut i: usize = 0;
        proof {
            tally::empty_tally();
            assert(q.take(0) =~= Seq::empty());
            assert(out@ =~= Seq::empty());
        }
        while i < n
            invariant
                i <= n,
                n == self.refinement_queue@.len(),
                q == self.refinement(),
                tally::is_tally(out@, tally::live_versions(q.take(i as int))),
            decreases n - i,
        {
            let w = &self.refinement_queue[i];
            assert(q.take(i + 1).drop_last() =~= q.take(i as int));
            assert(q.take(i + 1).last() == w@);
            if w.state != WorkState::Acked && w.state != WorkState::Superseded {
                count(
                    &mut out,
                    (w.tile_x, w.tile_y, w.generation),
                    Ghost(tally::live_versions(q.take(i as int))),
                );
            }
            i = i + 1;
        }
        assert(q.take(n as int) =~= q);
        let ghost queued = tally::live_versions(q);
        let m: usize = coverage_snapshot.len();
        i = 0;
        assert(c.take(0) =~= Seq::empty());
        assert(queued + tally::covered_versions(c.take(0)) =~= queued);
        while i < m
            invariant
                i <= m,
                m == c.len(),
                c == coverage_snapshot@,
                tally::is_tally(out@, queued + tally::covered_versions(c.take(i as int))),
            decreases m - i,
        {
            let entry = coverage_snapshot[i];
            let ghost seen = queued + tally::covered_versions(c.take(i as int));
            assert(c.take(i + 1).drop_last() =~= c.take(i as int));
            assert(c.take(i + 1).last() == entry);
            if entry.codec == Codec::Cdf53 {
                let t = (entry.tile_x, entry.tile_y, entry.generation);
                count(&mut out, t, Ghost(seen));
                assert(seen.push(t) =~= queued + tally::covered_versions(c.take(i + 1)));
            }
            i = i + 1;
        }
        assert(c.take(m as int) =~= c);
        out
    }

    /// Drains the queues.
    ///
    /// Acknowledged and superseded entries are dropped from both.  The budget
    /// is split between them by the refinement share, unless one is empty.
    /// Priority work goes out in queue order until its budget is used up;
    /// refinement work goes out pass by pass while it fits.
    pub fn tick(&mut self, budget_bytes: usize, now: Instant) -> (out: Vec<TileWork>)
        requires
            old(self).wf(),
        ensures
            final(self).wf(),
            ticked(old(self)@, final(self)@, work::works(out@), budget_bytes as nat, now),
            final(self).grid_cols() == old(self).grid_cols(),
            final(self).grid_rows() == old(self).grid_rows(),
            final(self).gens() == old(self).gens(),
            final(self).rtt_estimate() == old(self).rtt_estimate(),
            final(self).acks() == old(self).acks(),
    {
        let (priority_budget, refinement_budget) = split(
            budget_bytes,
            self.window.fraction_permille,
            self.priority_queue.len() == 0,
            self.refinement_queue.len() == 0,
        );
        let mut emitted: Vec<TileWork> = Vec::new();
        let retry_after = Duration { nanos: 2 * self.rtt.nanos };
        assert(work::works(emitted@) =~= Seq::<WorkView>::empty());
        drain_priority_queue(
            &mut self.priority_queue,
            priority_budget,
            retry_after,
            now,
            &mut emitted,
        );
        let ghost sent = work::works(emitted@);
        drain_refinement_pass_major(
            &mut self.refinement_queue,
            refinement_budget,
            now,
            &mut emitted,
        );
        let count: u32 = (emitted.len() as u64 % 0x1_0000_0000) as u32;
        self.window.emitted = self.window.emitted.saturating_add(count);
        self.window = self.window.adjust();
        proof {
            let budgets = split_budget(
                budget_bytes as nat,
                old(self)@.delivery.fraction_permille,
                old(self)@.priority.len() == 0,
                old(self)@.refinement.len() == 0,
            );
            assert(budgets == (priority_budget as nat, refinement_budget as nat));
            assert(drained_with(
                old(self)@,
                self@,
                work::works(emitted@),
                sent,
                budgets.0,
                budgets.1,
                now,
            ));
        }
        emitted
    }

    /// The share of the budget for refinement, in thousandths.
    pub fn current_refinement_fraction(&self) -> (f: u32)
        ensures
            f == self.delivery().fraction_permille,
    {
        self.window.fraction_permille
    }

    /// Queues every pass of a tile for refinement.
    pub fn enqueue_refinement(
        &mut self,
        tile_x: u8,
        tile_y: u8,
        generation: u8,
        passes: Vec<Vec<u8>>,
        now: Instant,
    )
        ensures
            final(self).same_but_queues(*old(self)),
            final(self).priority() == old(self).priority(),
            final(self).refinement() == old(self).refinement() + Seq::new(
                passes@.len(),
                |i: int|
                    refinement_work(
                        tile_x,
                        tile_y,
                        generation,
                        (i % 256) as u8,
                        (passes@.len() % 256) as u8,
                        passes@[i]@,
                        now,
                    ),
            ),
    {
        let total: u8 = (passes.len() % 256) as u8;
        let n: usize = passes.len();
        let mut i: usize = 0;
        assert(self.refinement() =~= old(self).refinement() + Seq::new(
            0,
            |j: int|
                refinement_work(
                    tile_x,
                    tile_y,
                    generation,
                    (j % 256) as u8,
                    total,
                    passes@[j]@,
                    now,
                ),
        ));
        while i < n
            invariant
                i <= n,
                n == passes@.len(),
                total == passes@.len() % 256,
                self.same_but_queues(*old(self)),
                self.priority() == old(self).priority(),
                self.refinement() == old(self).refinement() + Seq::new(
                    i as nat,
                    |j: int|
                        refinement_work(
                            tile_x,
                            tile_y,
                            generation,
                            (j % 256) as u8,
                            total,
                            passes@[j]@,
                            now,
                        ),
                ),
            decreases n - i,
        {
            let payload: Vec<u8> = crate::wire::copy_range(
                passes[i].as_slice(),
                0,
                passes[i].len(),
            );
            assert(payload@ =~= passes@[i as int]@);
            self.push_refinement(
                tile_x,
                tile_y,
                generation,
                (i % 256) as u8,
                total,
                payload,
                now,
            );
            i = i + 1;
            assert(self.refinement() =~= old(self).refinement() + Seq::new(
                i as nat,
                |j: int|
                    refinement_work(
                        tile_x,
                        tile_y,
                        generation,
                        (j % 256) as u8,
                        total,
                        passes@[j]@,
                        now,
                    ),
            ));
        }
    }

    fn push_refinement(
        &mut self,
        tile_x: u8,
        tile_y: u8,
        generation: u8,
        pass_idx: u8,
        total_passes: u8,
        payload: Vec<u8>,
        now: Instant,
    )
        ensures
            final(self).same_but_queues(*old(self)),
            final(self).priority() == old(self).priority(),
            final(self).refinement() == old(self).refinement().push(
                refinement_work(
                    tile_x,
                    tile_y,
                    generation,
                    pass_idx,
                    total_passes,
                    payload@,
                    now,
                ),
            ),
    {
        push_work(
            &mut self.refinement_queue,
            TileWork {
                tile_x,
                tile_y,
                generation,
                pass_idx,
                total_passes,
                codec: Codec::Cdf53,
                payload,
                queued_at: now,
                last_sent_at: None,
                state: WorkState::Pending,
            },
        );
    }

    /// Queues a subset of a tile's passes again, at their true pass numbers
    /// and at an unchanged generation.  Bit `i` of `pass_mask` stands for pass
    /// `i`; the payloads are those of the set bits, in ascending order.  Set
    /// bits beyond the last payload are left out.
    pub fn enqueue_refinement_subset(
        &mut self,
        tile_x: u8,
        tile_y: u8,
        generation: u8,
        pass_mask: u16,
        payloads: Vec<Vec<u8>>,
        now: Instant,
    )
        ensures
            final(self).same_but_queues(*old(self)),
            final(self).priority() == old(self).priority(),
            final(self).refinement() == old(self).refinement() + subset_work(
                tile_x,
                tile_y,
                generation,
                pass_mask,
                16,
                payloads@,
                now,
            ),
    {
        let mut next: usize = 0;
        let mut pass_idx: u8 = 0;
        assert(self.refinement() =~= old(self).refinement() + subset_work(
            tile_x,
            tile_y,
            generation,
            pass_mask,
            0,
            payloads@,
            now,
        ));
        while pass_idx < 16
            invariant
                pass_idx <= 16,
                self.same_but_queues(*old(self)),
                self.priority() == old(self).priority(),
                next == (if bits::count_below(pass_mask, pass_idx) <= payloads@.len() {
                    bits::count_below(pass_mask, pass_idx) as int
                } else {
                    payloads@.len() as int
                }),
                self.refinement() == old(self).refinement() + subset_work(
                    tile_x,
                    tile_y,
                    generation,
                    pass_mask,
                    pass_idx,
                    payloads@,
                    now,
                ),
            decreases 16 - pass_idx,
        {
            if bits::test_bit(pass_mask, pass_idx) && next < payloads.len() {
                let payload: Vec<u8> = crate::wire::copy_range(
                    payloads[next].as_slice(),
                    0,
                    payloads[next].len(),
                );
                assert(payload@ =~= payloads@[next as int]@);
                self.push_refinement(
                    tile_x,
                    tile_y,
                    generation,
                    pass_idx,
                    CDF53_PASS_COUNT,
                    payload,
                    now,
                );
                next = next + 1;
            }
            pass_idx = pass_idx + 1;
            assert(self.refinement() =~= old(self).refinement() + subset_work(
                tile_x,
                tile_y,
                generation,
                pass_mask,
                pass_idx,
                payloads@,
                now,
            ));
        }
    }
}

/// The tile of a piece of work as one number.
pub open spec fn tile_id(w: WorkView) -> u16 {
    (w.tile_x + 256 * w.tile_y) as u16
}

/// The tiles with work that is not acknowledged.
pub open spec fn deficit(q: Seq<WorkView>) -> Set<u16>
    decreases q.len(),
{
    if q.len() == 0 {
        Set::empty()
    } else if q.last().state != WorkState::Acked {
        deficit(q.drop_last()).insert(tile_id(q.last()))
    } else {
        deficit(q.drop_last())
    }
}

/// Number of distinct tiles with work in `queue` that is not acknowledged,
/// its low thirty-two bits.
pub fn deficit_tiles(queue: &VecDeque<TileWork>) -> (n: u32)
    ensures
        n == crate::protocol::low32(deficit(work::works(queue@)).len() as int),
{
    let mut seen: HashSet<u16> = HashSet::new();
    let n: usize = queue.len();
    let mut i: usize = 0;
    let ghost all = work::works(queue@);
    assert(all.take(0) =~= Seq::empty());
    assert(seen@ =~= deficit(all.take(0)));
    while i < n
        invariant
            i <= n,
            n == queue@.len(),
            all == work::works(queue@),
            seen@ == deficit(all.take(i as int)),
        decreases n - i,
    {
        let w = &queue[i];
        proof {
            assert(all.take(i + 1).drop_last() =~= all.take(i as int));
            assert(all.take(i + 1).last() == w@);
        }
        if w.state != WorkState::Acked {
            seen.insert(w.tile_x as u16 + 256 * (w.tile_y as u16));
        }
        i = i + 1;
    }
    assert(all.take(n as int) =~= all);
    (seen.len() as u64 % 0x1_0000_0000) as u32
}

/// One Cdf53 pass, newly queued.
pub open spec fn refinement_work(
    tile_x: u8,
    tile_y: u8,
    generation: u8,
    pass_idx: u8,
    total_passes: u8,
    payload: Seq<u8>,
    now: Instant,
) -> WorkView {
    WorkView {
        tile_x,
        tile_y,
        generation,
        pass_idx,
        total_passes,
        codec: Codec::Cdf53,
        payload,
        queued_at: now,
        last_sent_at: None,
        state: WorkState::Pending,
    }
}

/// The work for the set bits of `mask` below `n`: the `j`-th set bit takes
/// payload `j`, as long as there is one.
pub open spec fn subset_work(
    tile_x: u8,
    tile_y: u8,
    generation: u8,
    mask: u16,
    n: u8,
    payloads: Seq<Vec<u8>>,
    now: Instant,
) -> Seq<WorkView>
    decreases n,
{
    if n == 0 {
        Seq::empty()
    } else {
        let pass = (n - 1) as u8;
        let front = subset_work(tile_x, tile_y, generation, mask, pass, payloads, now);
        let j = bits::count_below(mask, pass);
        if bits::has_bit(mask, pass) && j < payloads.len() {
            front.push(
                refinement_work(
                    tile_x,
                    tile_y,
                    generation,
                    pass,
                    CDF53_PASS_COUNT,
                    payloads[j as int]@,
                    now,
                ),
            )
        } else {
            front
        }
    }
}

/// The entries that are not superseded, in order.
pub open spec fn not_superseded(q: Seq<WorkView>) -> Seq<WorkView> {
    q.filter(|w: WorkView| w.state != WorkState::Superseded)
}

/// The second payload byte of palette work.
pub open spec fn palette_of(w: WorkView) -> Option<u8> {
    if w.codec == Codec::PalRle && w.payload.len() >= 2 {
        Some(w.payload[1])
    } else {
        None
    }
}

/// What is reported of the live work of a tile, in queue order.
pub open spec fn resolved_for(q: Seq<WorkView>, tile_x: u8, tile_y: u8) -> Seq<ResolvedTileWork>
    decreases q.len(),
{
    if q.len() == 0 {
        Seq::empty()
    } else {
        let front = resolved_for(q.drop_last(), tile_x, tile_y);
        let w = q.last();
        if w.is_tile(tile_x, tile_y) && w.is_live() {
            front.push(
                ResolvedTileWork {
                    tile_x,
                    tile_y,
                    generation: w.generation,
                    pass: w.pass_idx,
                    codec: w.codec,
                    palette_id: palette_of(w),
                    via_ack: false,
                },
            )
        } else {
            front
        }
    }
}

/// Reports the live work of a tile.
fn collect_resolved(
    q: &VecDeque<TileWork>,
    tile_x: u8,
    tile_y: u8,
    out: &mut Vec<ResolvedTileWork>,
)
    ensures
        final(out)@ == old(out)@ + resolved_for(work::works(q@), tile_x, tile_y),
{
    let ghost all = work::works(q@);
    let n: usize = q.len();
    let mut i: usize = 0;
    assert(all.take(0) =~= Seq::empty());
    assert(out@ =~= old(out)@ + resolved_for(all.take(0), tile_x, tile_y));
    while i < n
        invariant
            i <= n,
            n == q@.len(),
            all == work::works(q@),
            out@ == old(out)@ + resolved_for(all.take(i as int), tile_x, tile_y),
        decreases n - i,
    {
        let w = &q[i];
        proof {
            assert(all.take(i + 1).drop_last() =~= all.take(i as int));
            assert(all.take(i + 1).last() == w@);
        }
        if w.is_tile(tile_x, tile_y) && w.is_live() {
            let palette_id: Option<u8> = if w.codec == Codec::PalRle && w.payload.len() >= 2 {
                Some(w.payload[1])
            } else {
                None
            };
            out.push(
                ResolvedTileWork {
                    tile_x,
                    tile_y,
                    generation: w.generation,
                    pass: w.pass_idx,
                    codec: w.codec,
                    palette_id,
                    via_ack: false,
                },
            );
        }
        i = i + 1;
        assert(out@ =~= old(out)@ + resolved_for(all.take(i as int), tile_x, tile_y));
    }
    assert(all.take(n as int) =~= all);
}

/// Drops the superseded entries.
fn drop_superseded(q: &mut VecDeque<TileWork>)
    ensures
        work::works(final(q)@) == not_superseded(work::works(old(q)@)),
{
    let ghost before = work::works(q@);
    let ghost kept: Seq<WorkView> = Seq::empty();
    let n: usize = q.len();
    let mut i: usize = 0;
    assert(not_superseded(before.take(0)) =~= Seq::empty()) by {
        reveal(Seq::filter);
    }
    assert(before.skip(0) + kept =~= before);
    while i < n
        invariant
            i <= n,
            n == before.len(),
            work::works(q@) == before.skip(i as int) + kept,
            q@.len() == work::works(q@).len(),
            kept == not_superseded(before.take(i as int)),
        decreases n - i,
    {
        let w = pop_work(q);
        assert(w@ == before[i as int]);
        proof {
            reveal(Seq::filter);
            assert(before.take(i + 1).drop_last() =~= before.take(i as int));
            assert(before.take(i + 1).last() == w@);
            assert((before.skip(i as int) + kept).skip(1) =~= before.skip(i + 1) + kept);
        }
        if w.state != WorkState::Superseded {
            proof {
                kept = kept.push(w@);
            }
            push_work(q, w);
            assert(work::works(q@) =~= before.skip(i + 1) + kept);
        }
        i = i + 1;
    }
    assert(before.take(n as int) =~= before);
    assert(work::works(q@) =~= kept);
}

/// The entry is in flight and is what the acknowledgement names.
pub open spec fn awaits(w: WorkView, tile_x: u8, tile_y: u8, generation: u8, pass_idx: u8) -> bool {
    &&& w.is_tile(tile_x, tile_y)
    &&& w.generation == generation
    &&& w.pass_idx == pass_idx
    &&& w.state == WorkState::InFlight
}

/// Some entry of the queue is what the acknowledgement names.
pub open spec fn awaits_ack(
    q: Seq<WorkView>,
    tile_x: u8,
    tile_y: u8,
    generation: u8,
    pass_idx: u8,
) -> bool {
    exists|i: int|
        0 <= i < q.len() && awaits(#[trigger] q[i], tile_x, tile_y, generation, pass_idx)
}

/// The queue with the first such entry acknowledged.
pub open spec fn first_acked(
    q: Seq<WorkView>,
    tile_x: u8,
    tile_y: u8,
    generation: u8,
    pass_idx: u8,
) -> Seq<WorkView> {
    Seq::new(
        q.len(),
        |i: int|
            if awaits(q[i], tile_x, tile_y, generation, pass_idx) && !awaits_ack(
                q.take(i),
                tile_x,
                tile_y,
                generation,
                pass_idx,
            ) {
                WorkView { state: WorkState::Acked, ..q[i] }
            } else {
                q[i]
            },
    )
}

/// Acknowledges the first matching entry; tells whether there was one.
fn ack_first(
    q: &mut VecDeque<TileWork>,
    tile_x: u8,
    tile_y: u8,
    generation: u8,
    pass_idx: u8,
) -> (found: bool)
    ensures
        found == awaits_ack(work::works(old(q)@), tile_x, tile_y, generation, pass_idx),
        work::works(final(q)@) == first_acked(
            work::works(old(q)@),
            tile_x,
            tile_y,
            generation,
            pass_idx,
        ),
{
    let ghost before = work::works(q@);
    let ghost want = first_acked(before, tile_x, tile_y, generation, pass_idx);
    let n: usize = q.len();
    let mut i: usize = 0;
    let mut found: bool = false;
    assert(before.skip(0) + want.take(0) =~= before);
    while i < n
        invariant
            i <= n,
            n == before.len(),
            want == first_acked(before, tile_x, tile_y, generation, pass_idx),
            work::works(q@) == before.skip(i as int) + want.take(i as int),
            q@.len() == work::works(q@).len(),
            found == awaits_ack(before.take(i as int), tile_x, tile_y, generation, pass_idx),
        decreases n - i,
    {
        let mut w = pop_work(q);
        assert(w@ == before[i as int]);
        let hit: bool = w.is_tile(tile_x, tile_y) && w.generation == generation && w.pass_idx
            == pass_idx && w.state == WorkState::InFlight;
        proof {
            assert forall|j: int| 0 <= j < i implies before.take(i + 1)[j] == before.take(
                i as int,
            )[j] by {}
            assert(before.take(i + 1)[i as int] == w@);
            if found {
                let j = choose|j: int|
                    0 <= j < i && awaits(
                        #[trigger] before.take(i as int)[j],
                        tile_x,
                        tile_y,
                        generation,
                        pass_idx,
                    );
                assert(awaits(
                    before.take(i + 1)[j],
                    tile_x,
                    tile_y,
                    generation,
                    pass_idx,
                ));
            }
            if hit {
                assert(awaits(
                    before.take(i + 1)[i as int],
                    tile_x,
                    tile_y,
                    generation,
                    pass_idx,
                ));
            }
            if !found && !hit {
                assert(!awaits_ack(before.take(i + 1), tile_x, tile_y, generation, pass_idx));
            }
        }
        if hit && !found {
            w.state = WorkState::Acked;
        }
        assert(w@ == want[i as int]);
        found = found || hit;
        push_work(q, w);
        i = i + 1;
        assert(work::works(q@) =~= before.skip(i as int) + want.take(i as int));
    }
    assert(before.take(n as int) =~= before);
    assert(work::works(q@) =~= want);
    found
}

/// The table without the tile's acknowledgements, of any generation.
pub open spec fn forgets_tile(
    before: Map<u32, u16>,
    after: Map<u32, u16>,
    tile_x: u8,
    tile_y: u8,
) -> bool {
    after == before.remove_keys(
        Set::new(|k: u32| k % 0x1_0000 == tile_x + 0x100 * tile_y && k / 0x1_0000 < 256),
    )
}

/// Removes a tile's acknowledgements.
fn forget_tile(acks: &mut HashMap<u32, u16>, tile_x: u8, tile_y: u8)
    ensures
        forgets_tile(old(acks)@, final(acks)@, tile_x, tile_y),
{
    let mut generation: u16 = 0;
    assert(acks@ =~= forgotten(old(acks)@, tile_x, tile_y, 0));
    while generation < 256
        invariant
            generation <= 256,
            acks@ == forgotten(old(acks)@, tile_x, tile_y, generation as int),
        decreases 256 - generation,
    {
        let key: u32 = pack_key(tile_x, tile_y, generation as u8);
        acks.remove(&key);
        generation = generation + 1;
        assert(acks@ =~= forgotten(old(acks)@, tile_x, tile_y, generation as int));
    }
}

/// The table without the tile's acknowledgements of generations below `n`.
spec fn forgotten(before: Map<u32, u16>, tile_x: u8, tile_y: u8, n: int) -> Map<u32, u16> {
    before.remove_keys(
        Set::new(|k: u32| k % 0x1_0000 == tile_x + 0x100 * tile_y && k / 0x1_0000 < n),
    )
}

/// No bit is set in an empty mask.
proof fn count_of_none()
    ensures
        bits::count_bits(0) == 0,
{
    bits_of_none(16);
}

proof fn bits_of_none(n: u8)
    ensures
        bits::count_below(0, n) == 0,
    decreases n,
{
    if n > 0 {
        bits_of_none((n - 1) as u8);
        bits::zero_has_no_bit((n - 1) as u8);
    }
}

/// What a tick with given queue budgets does; `sent` is what the priority
/// queue gave.
pub open spec fn drained_with(
    before: SchedulerView,
    after: SchedulerView,
    out: Seq<WorkView>,
    sent: Seq<WorkView>,
    priority_budget: nat,
    refinement_budget: nat,
    now: Instant,
) -> bool {
    &&& drain::works_after_priority(
        before.priority,
        after.priority,
        Seq::empty(),
        sent,
        priority_budget,
        Duration { nanos: (2 * before.rtt.nanos) as u128 },
        now,
    )
    &&& drain::works_after_refinement(
        before.refinement,
        after.refinement,
        sent,
        out,
        refinement_budget,
        now,
    )
}

/// What a tick does to the queues, to the delivery window and to the output.
pub open spec fn ticked(
    before: SchedulerView,
    after: SchedulerView,
    out: Seq<WorkView>,
    budget: nat,
    now: Instant,
) -> bool {
    let budgets = split_budget(
        budget,
        before.delivery.fraction_permille,
        before.priority.len() == 0,
        before.refinement.len() == 0,
    );
    let count = crate::protocol::low32(out.len() as int);
    &&& exists|sent: Seq<WorkView>| #[trigger]
        drained_with(before, after, out, sent, budgets.0, budgets.1, now)
    &&& after.delivery == (DeliveryWindow {
        emitted: (if before.delivery.emitted + count <= u32::MAX {
            (before.delivery.emitted + count) as u32
        } else {
            u32::MAX
        }),
        ..before.delivery
    }).adjusted()
}

/// Once a tile's generation is bumped, no work queued before is sent for it
/// any more: none of it is live.
pub proof fn superseded_work_is_not_sent(q: Seq<WorkView>, tile_x: u8, tile_y: u8, i: int)
    requires
        0 <= i < work::live(work::superseded(q, tile_x, tile_y)).len(),
    ensures
        !work::live(work::superseded(q, tile_x, tile_y))[i].is_tile(tile_x, tile_y),
{
    let s = work::superseded(q, tile_x, tile_y);
    seqs::filter_member(s, |w: WorkView| w.is_live(), i);
    let w = work::live(s)[i];
    let k = choose|k: int| 0 <= k < s.len() && s[k] == w;
    assert(s[k] == q[k].superseded_for(tile_x, tile_y));
}

/// After a bump the snapshot of pending refinement counts no queued work for
/// any generation of the tile.
pub proof fn bumped_tile_is_not_pending(
    q: Seq<WorkView>,
    tile_x: u8,
    tile_y: u8,
    generation: u8,
)
    ensures
        tally::occurrences(
            tally::live_versions(work::superseded(q, tile_x, tile_y)),
            (tile_x, tile_y, generation),
        ) == 0,
    decreases q.len(),
{
    let s = work::superseded(q, tile_x, tile_y);
    let v = tally::live_versions(s);
    if q.len() > 0 {
        bumped_tile_is_not_pending(q.drop_last(), tile_x, tile_y, generation);
        assert(s.drop_last() =~= work::superseded(q.drop_last(), tile_x, tile_y));
        assert(s.last() == q.last().superseded_for(tile_x, tile_y));
        if !s.last().is_terminal() {
            assert(v.drop_last() =~= tally::live_versions(s.drop_last()));
        }
    }
}

/// A bump leaves the work of the other tiles as it is.
pub proof fn bump_keeps_other_tiles(q: Seq<WorkView>, tile_x: u8, tile_y: u8, i: int)
    requires
        0 <= i < q.len(),
        !q[i].is_tile(tile_x, tile_y),
    ensures
        work::superseded(q, tile_x, tile_y)[i] == q[i],
{
}

/// Everything that the priority queue sends is in flight from then on, and was
/// live and due.
pub proof fn sent_work_was_due(
    q: Seq<WorkView>,
    n: int,
    budget: nat,
    now: Instant,
    retry_after: int,
    i: int,
)
    requires
        0 <= n <= q.len(),
        0 <= i < drain::outgoing(q, n, budget, now, retry_after).len(),
    ensures
        exists|k: int|
            0 <= k < n && (#[trigger] q[k]).is_due(now, retry_after) && drain::outgoing(
                q,
                n,
                budget,
                now,
                retry_after,
            )[i] == q[k].sent_at(now),
    decreases n,
{
    if n > 0 {
        let front = drain::outgoing(q, n - 1, budget, now, retry_after);
        if i < front.len() {
            sent_work_was_due(q, n - 1, budget, now, retry_after, i);
        } else {
            assert(q[n - 1].is_due(now, retry_after));
        }
    }
}

/// Work that is in flight is not sent again before twice the round-trip time
/// has passed.
pub proof fn no_early_retry(w: WorkView, sent: Instant, now: Instant, retry_after: int)
    requires
        retry_after > 0,
        work::elapsed(sent, now) < retry_after,
    ensures
        !w.sent_at(sent).is_due(now, retry_after),
{
}

/// With an unlimited budget every due entry goes out: nothing starves.
pub proof fn unlimited_budget_sends_all_due(
    q: Seq<WorkView>,
    i: int,
    budget: nat,
    now: Instant,
    retry_after: int,
)
    requires
        0 <= i < q.len(),
        q[i].is_due(now, retry_after),
        drain::due_bytes(q, now, retry_after) < budget,
    ensures
        drain::goes_out(q, i, budget, now, retry_after),
{
    drain::due_bytes_grow(q, i, q.len() as int, now, retry_after);
    assert(q.take(q.len() as int) =~= q);
}

/// Acknowledged work is terminal, so the next tick drops it instead of sending
/// it.
pub proof fn acked_work_is_dropped(
    q: Seq<WorkView>,
    tile_x: u8,
    tile_y: u8,
    generation: u8,
    pass_idx: u8,
    i: int,
)
    requires
        0 <= i < q.len(),
        awaits(q[i], tile_x, tile_y, generation, pass_idx),
        !awaits_ack(q.take(i), tile_x, tile_y, generation, pass_idx),
    ensures
        first_acked(q, tile_x, tile_y, generation, pass_idx)[i].is_terminal(),
{
}

/// Recording an acknowledgement a second time changes neither the table nor
/// the delivery window.
pub proof fn repeated_cdf53_ack_is_idempotent(
    s: Scheduler,
    tile_x: u8,
    tile_y: u8,
    generation: u8,
    pass_idx: u8,
)
    requires
        bits::has_bit(s.acked_or_none(tile_x, tile_y, generation), (pass_idx % 16) as u8),
    ensures
        s.acks().insert(
            ack_key(tile_x, tile_y, generation),
            bits::with_bit(
                s.acked_or_none(tile_x, tile_y, generation),
                (pass_idx % 16) as u8,
            ),
        ) == s.acks(),
{
    let m = s.acked_or_none(tile_x, tile_y, generation);
    bits::with_bit_idempotent(m, (pass_idx % 16) as u8);
    if s.acked(tile_x, tile_y, generation) is None {
        bits::zero_has_no_bit((pass_idx % 16) as u8);
    }
    assert(s.acks().insert(ack_key(tile_x, tile_y, generation), m) =~= s.acks());
}

/// A bump forgets every acknowledgement of the tile and none of another tile.
pub proof fn bump_forgets_exactly_the_tile(
    before: Map<u32, u16>,
    after: Map<u32, u16>,
    tile_x: u8,
    tile_y: u8,
    x: u8,
    y: u8,
    generation: u8,
)
    requires
        forgets_tile(before, after, tile_x, tile_y),
    ensures
        (x == tile_x && y == tile_y) ==> !after.dom().contains(ack_key(x, y, generation)),
        !(x == tile_x && y == tile_y) ==> (after.dom().contains(ack_key(x, y, generation))
            == before.dom().contains(ack_key(x, y, generation)) && (before.dom().contains(
            ack_key(x, y, generation),
        ) ==> after[ack_key(x, y, generation)] == before[ack_key(x, y, generation)])),
{
    let k = ack_key(x, y, generation);
    assert(k % 0x1_0000 == x + 0x100 * y);
    assert(k / 0x1_0000 == generation);
}

} // verus!
