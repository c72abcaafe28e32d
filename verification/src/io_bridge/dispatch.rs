//! Emission of dirty tiles through the scheduler, and what acknowledgements do.
use crate::fragment_coverage;
use crate::fragment_coverage::{
    CoverageList, CoverageView, FragmentCoverage, FragmentCoverageMap,
};
use crate::io_bridge::full_frame;
use crate::io_bridge::palettes::{DeliveryView, PaletteDelivery};
use crate::io_bridge::tiles;
use crate::io_bridge::tiles::{gate_codec_state, CodecState, TileState, TileTable};
use crate::protocol;
use crate::protocol::{fragment_tile, with_tile_flag, Codec, TileFragmentInputs};
use crate::scheduler;
use crate::scheduler::work;
use crate::scheduler::work::WorkView;
use crate::scheduler::{ResolvedTileWork, Scheduler, SchedulerView, TileWork, WorkState};
use crate::time::{Duration, Instant};
use crate::wire::copy_range;
use vstd::prelude::*;

verus! {

broadcast use vstd::slice::group_slice_axioms;

/// How a codec is chosen per tile.
#[derive(Debug, Clone, Copy, PartialEq, Eq, Structural)]
pub enum SchedulerEmissionPolicy {
    /// Every tile is sent raw.
    CpuRawOnly,
    /// The tile's codec state decides.
    GpuClassifierDriven,
}

/// A dirty tile and the payloads it could be sent as.
#[derive(Debug)]
pub struct DirtyTile {
    pub tile_x: u32,
    pub tile_y: u32,
    /// Its pixels.
    pub raw: Vec<u8>,
    /// Its one colour.
    pub solid: Vec<u8>,
    /// Its palette encoding, if there is one for this frame.
    pub palrle: Option<Vec<u8>>,
}

/// What a [`DirtyTile`] holds.
pub struct DirtyView {
    pub tile_x: u32,
    pub tile_y: u32,
    pub raw: Seq<u8>,
    pub solid: Seq<u8>,
    pub palrle: Option<Seq<u8>>,
}

impl View for DirtyTile {
    type V = DirtyView;

    open spec fn view(&self) -> DirtyView {
        DirtyView {
            tile_x: self.tile_x,
            tile_y: self.tile_y,
            raw: self.raw@,
            solid: self.solid@,
            palrle: (match self.palrle {
                Some(p) => Some(p@),
                None => None,
            }),
        }
    }
}

impl DirtyView {
    /// The column as it is sent: its low byte.
    pub open spec fn x8(self) -> u8 {
        (self.tile_x % 256) as u8
    }

    pub open spec fn y8(self) -> u8 {
        (self.tile_y % 256) as u8
    }
}

/// The tiles of a list.
pub open spec fn dirty_views(list: Seq<DirtyTile>) -> Seq<DirtyView> {
    list.map_values(|t: DirtyTile| t@)
}

/// The codec and payload that a tile is sent with.
pub open spec fn encoding(
    t: DirtyView,
    policy: SchedulerEmissionPolicy,
    state: CodecState,
) -> (Codec, Seq<u8>) {
    match (policy, state) {
        (SchedulerEmissionPolicy::GpuClassifierDriven, CodecState::Solid) => (
            Codec::Solid,
            t.solid,
        ),
        (SchedulerEmissionPolicy::GpuClassifierDriven, CodecState::PalRle { .. }) => match t.palrle {
            Some(p) => (Codec::PalRle, p),
            None => (Codec::Raw, t.raw),
        },
        _ => (Codec::Raw, t.raw),
    }
}

/// The palettes that superseded work used, in order.
pub open spec fn palette_ids(list: Seq<ResolvedTileWork>) -> Seq<u8>
    decreases list.len(),
{
    if list.len() == 0 {
        Seq::empty()
    } else {
        match list.last().palette_id {
            Some(id) => palette_ids(list.drop_last()).push(id),
            None => palette_ids(list.drop_last()),
        }
    }
}

/// The delivery state after work with these palettes was superseded.
pub open spec fn all_dropped(p: DeliveryView, ids: Seq<u8>) -> DeliveryView
    decreases ids.len(),
{
    if ids.len() == 0 {
        p
    } else {
        all_dropped(p, ids.drop_last()).dropped(ids.last())
    }
}

/// What emission changes.
#[verifier::ext_equal]
pub struct EmitState {
    pub sched: SchedulerView,
    pub tiles: Seq<TileState>,
    pub palettes: DeliveryView,
    pub coverage: CoverageView,
    /// Palettes whose use by a tile has ended, in order.
    pub released: Seq<u8>,
}

/// What emission goes by.
pub struct EmitRules {
    pub policy: SchedulerEmissionPolicy,
    /// The grid of the tile states.
    pub cols: u32,
    pub rows: u32,
    /// Cdf53 is switched on, and the client supports it.
    pub cdf53_enabled: bool,
    pub cdf53_supported: bool,
}

impl EmitState {
    /// The codec state that a tile is sent by.
    pub open spec fn codec_state(self, t: DirtyView, rules: EmitRules) -> CodecState {
        tiles::gated(
            self.tiles[tiles::place(rules.cols, t.tile_x, t.tile_y)].codec_state,
            rules.cdf53_enabled,
            rules.cdf53_supported,
        )
    }

    /// The tile's passes are in the refinement queue already.
    pub open spec fn is_refined(self, t: DirtyView, rules: EmitRules) -> bool {
        rules.policy == SchedulerEmissionPolicy::GpuClassifierDriven && self.codec_state(
            t,
            rules,
        ) is Cdf53
    }

    /// A tile's generation is bumped: work and coverage of the old one are
    /// dropped, the palettes it used are released, and the tile can be refined
    /// again.
    pub open spec fn renewed(self, t: DirtyView, rules: EmitRules) -> EmitState {
        let ids = palette_ids(
            scheduler::resolved_for(self.sched.priority, t.x8(), t.y8()) + scheduler::resolved_for(
                self.sched.refinement,
                t.x8(),
                t.y8(),
            ),
        );
        let at = tiles::place(rules.cols, t.tile_x, t.tile_y);
        EmitState {
            sched: self.sched.bumped_and_swept(t.x8(), t.y8()),
            tiles: (if t.tile_x < rules.cols && t.tile_y < rules.rows {
                self.tiles.update(at, TileState { already_escalated: false, ..self.tiles[at] })
            } else {
                self.tiles
            }),
            palettes: all_dropped(self.palettes, ids),
            coverage: self.coverage.without_refinement(t.x8(), t.y8()),
            released: self.released + ids,
        }
    }

    /// The tile is queued in its new generation.
    pub open spec fn queued(self, t: DirtyView, rules: EmitRules, now: Instant) -> EmitState {
        if self.is_refined(t, rules) {
            self
        } else {
            let s = self.renewed(t, rules);
            let (codec, payload) = encoding(t, rules.policy, self.codec_state(t, rules));
            EmitState {
                sched: s.sched.enqueued(
                    WorkView {
                        tile_x: t.x8(),
                        tile_y: t.y8(),
                        generation: self.sched.next_gen(t.x8(), t.y8()),
                        pass_idx: 0,
                        total_passes: 1,
                        codec,
                        payload,
                        queued_at: now,
                        last_sent_at: None,
                        state: WorkState::Pending,
                    },
                    now,
                ),
                ..s
            }
        }
    }

    /// Several tiles are queued, in order.
    pub open spec fn all_queued(
        self,
        dirty: Seq<DirtyView>,
        rules: EmitRules,
        now: Instant,
    ) -> EmitState
        decreases dirty.len(),
    {
        if dirty.len() == 0 {
            self
        } else {
            self.all_queued(dirty.drop_last(), rules, now).queued(dirty.last(), rules, now)
        }
    }
}

/// The datagrams of a piece of work.
pub open spec fn work_datagrams(
    w: WorkView,
    seq: u32,
    timestamp_us: u32,
    max_frag: nat,
) -> Seq<Seq<u8>> {
    let inputs = TileFragmentInputs {
        frame_seq: protocol::tile_flagged(seq),
        tile_x: w.tile_x,
        tile_y: w.tile_y,
        codec: w.codec,
        generation: w.generation,
        pass: w.pass_idx,
        timestamp_us,
    };
    Seq::new(
        protocol::chunk_count(w.payload.len(), max_frag),
        |i: int| inputs.fragment(w.payload, max_frag, i),
    )
}

/// The datagrams of several pieces of work, in order.
pub open spec fn all_datagrams(
    works: Seq<WorkView>,
    seq: u32,
    timestamp_us: u32,
    max_frag: nat,
) -> Seq<Seq<u8>>
    decreases works.len(),
{
    if works.len() == 0 {
        Seq::empty()
    } else {
        all_datagrams(works.drop_last(), seq, timestamp_us, max_frag) + work_datagrams(
            works.last(),
            seq,
            timestamp_us,
            max_frag,
        )
    }
}

/// The frame number that acknowledgements name: without the tile flag.
pub open spec fn acked_frame(seq: u32) -> u32 {
    (seq % 0x8000_0000) as u32
}

/// What a piece of work carries.
pub open spec fn coverage_of(w: WorkView) -> FragmentCoverage {
    FragmentCoverage {
        tile_x: w.tile_x,
        tile_y: w.tile_y,
        generation: w.generation,
        pass_idx: w.pass_idx,
        codec: w.codec,
        palette_id: scheduler::palette_of(w),
    }
}

/// The coverage after pieces of work were emitted in a frame.
pub open spec fn all_covered(c: CoverageView, works: Seq<WorkView>, seq: u32) -> CoverageView
    decreases works.len(),
{
    if works.len() == 0 {
        c
    } else {
        let w = works.last();
        all_covered(c, works.drop_last(), seq).recorded(
            fragment_coverage::number_of((acked_frame(seq), w.tile_x, w.tile_y, w.pass_idx)),
            seq![coverage_of(w)],
        )
    }
}

/// The smallest of the round-trip times, or the default without any.
pub open spec fn least_rtt(rtts: Seq<Duration>) -> Duration
    decreases rtts.len(),
{
    if rtts.len() == 0 {
        Duration { nanos: scheduler::DEFAULT_RTT_NANOS }
    } else if rtts.len() == 1 {
        rtts[0]
    } else {
        let before = least_rtt(rtts.drop_last());
        if before.nanos <= rtts.last().nanos {
            before
        } else {
            rtts.last()
        }
    }
}

/// Computes `least_rtt`.
pub fn smallest_rtt(rtts: &[Duration]) -> (r: Duration)
    ensures
        r == least_rtt(rtts@),
{
    let n: usize = rtts.len();
    if n == 0 {
        return Duration { nanos: scheduler::DEFAULT_RTT_NANOS };
    }
    let mut best: Duration = rtts[0];
    let mut i: usize = 1;
    assert(rtts@.take(1).len() == 1);
    while i < n
        invariant
            1 <= i <= n,
            n == rtts@.len(),
            best == least_rtt(rtts@.take(i as int)),
        decreases n - i,
    {
        assert(rtts@.take(i + 1).drop_last() =~= rtts@.take(i as int));
        assert(rtts@.take(i + 1).last() == rtts@[i as int]);
        if best.nanos > rtts[i].nanos {
            best = rtts[i];
        }
        i = i + 1;
    }
    assert(rtts@.take(n as int) =~= rtts@);
    best
}

/// What is emitted with a frame.
#[derive(Debug)]
pub struct Dispatched {
    /// The datagrams, in order.
    pub datagrams: Vec<Vec<u8>>,
    /// Palettes whose use by a tile has ended: each is to be released once.
    pub released: Vec<u8>,
}

/// The parts of the bridge that emission works on.
pub struct Emission {
    pub scheduler: Scheduler,
    pub tiles: TileTable,
    pub palettes: PaletteDelivery,
    pub coverage: FragmentCoverageMap,
    pub cdf53_enabled: bool,
    /// Whether the client decodes Cdf53 passes.  Its capability message has no
    /// bit for that, so the owner of the bridge says it.
    pub cdf53_supported: bool,
}

impl Emission {
    pub open spec fn wf(&self) -> bool {
        &&& self.scheduler.wf()
        &&& self.tiles.wf()
        &&& self.palettes.wf()
        &&& self.coverage.wf()
    }

    pub open spec fn state(&self, released: Seq<u8>) -> EmitState {
        EmitState {
            sched: self.scheduler@,
            tiles: self.tiles.tiles@,
            palettes: self.palettes@,
            coverage: self.coverage@,
            released,
        }
    }

    pub open spec fn rules(&self, policy: SchedulerEmissionPolicy) -> EmitRules {
        EmitRules {
            policy,
            cols: self.tiles.cols,
            rows: self.tiles.rows,
            cdf53_enabled: self.cdf53_enabled,
            cdf53_supported: self.cdf53_supported,
        }
    }

    /// The grid of the tile states and the switches are the same.
    pub open spec fn same_rules(&self, before: Emission) -> bool {
        &&& self.tiles.cols == before.tiles.cols
        &&& self.tiles.rows == before.tiles.rows
        &&& self.cdf53_enabled == before.cdf53_enabled
        &&& self.cdf53_supported == before.cdf53_supported
    }

    /// The tile is on the scheduler's grid, and on that of the tile states if
    /// they are asked.
    pub open spec fn accepts(&self, t: DirtyView, policy: SchedulerEmissionPolicy) -> bool {
        &&& t.tile_x < self.scheduler@.cols && t.tile_y < self.scheduler@.rows
        &&& policy == SchedulerEmissionPolicy::GpuClassifierDriven ==> self.tiles.on_grid(
            t.tile_x,
            t.tile_y,
        )
    }

    /// Bumps a tile's generation.
    fn renew(&mut self, tile_x: u32, tile_y: u32, released: &mut Vec<u8>) -> (generation: u8)
        requires
            old(self).wf(),
            tile_x < old(self).scheduler@.cols,
            tile_y < old(self).scheduler@.rows,
        ensures
            final(self).wf(),
            final(self).same_rules(*old(self)),
            final(self).scheduler@.cols == old(self).scheduler@.cols,
            final(self).scheduler@.rows == old(self).scheduler@.rows,
            final(self).scheduler@.rtt == old(self).scheduler@.rtt,
            generation == old(self).scheduler@.next_gen((tile_x % 256) as u8, (tile_y % 256) as u8),
            forall|t: DirtyView, policy: SchedulerEmissionPolicy|
                t.tile_x == tile_x && t.tile_y == tile_y ==> final(self).state(
                    final(released)@,
                ) == #[trigger] old(self).state(old(released)@).renewed(
                    t,
                    old(self).rules(policy),
                ),
    {
        let x: u8 = (tile_x % 256) as u8;
        let y: u8 = (tile_y % 256) as u8;
        let ghost s = self.scheduler@;
        proof {
            low_byte_is_on_grid(s.cols, s.rows, tile_x, tile_y);
        }
        let (generation, resolved) = self.scheduler.bump_generation_collecting(x, y);
        assert(self.scheduler@ =~= s.bumped_and_swept(x, y));
        self.coverage.drop_cdf53_for_tile(x, y);
        if tile_x < self.tiles.cols && tile_y < self.tiles.rows {
            let mut t = self.tiles.get(tile_x, tile_y);
            t.already_escalated = false;
            self.tiles.set(tile_x, tile_y, t);
        }
        let n: usize = resolved.len();
        let mut i: usize = 0;
        let ghost before = self.palettes@;
        let ghost start = released@;
        assert(resolved@.take(0) =~= Seq::empty());
        assert(start + palette_ids(resolved@.take(0)) =~= start);
        while i < n
            invariant
                i <= n,
                n == resolved@.len(),
                self.palettes.wf(),
                self.palettes@ == all_dropped(before, palette_ids(resolved@.take(i as int))),
                released@ == start + palette_ids(resolved@.take(i as int)),
                self.scheduler.wf(),
                self.tiles.wf(),
                self.coverage.wf(),
                self.scheduler@ == s.bumped_and_swept(x, y),
                self.same_rules(*old(self)),
                self.coverage@ == old(self).coverage@.without_refinement(x, y),
                self.tiles.tiles@ == (if tile_x < old(self).tiles.cols && tile_y < old(
                    self,
                ).tiles.rows {
                    let at = tiles::place(old(self).tiles.cols, tile_x, tile_y);
                    old(self).tiles.tiles@.update(
                        at,
                        TileState { already_escalated: false, ..old(self).tiles.tiles@[at] },
                    )
                } else {
                    old(self).tiles.tiles@
                }),
            decreases n - i,
        {
            let ghost ids = palette_ids(resolved@.take(i as int));
            proof {
                assert(resolved@.take(i + 1).drop_last() =~= resolved@.take(i as int));
                assert(resolved@.take(i + 1).last() == resolved@[i as int]);
            }
            if let Some(id) = resolved[i].palette_id {
                self.palettes.on_dropped(id);
                released.push(id);
                proof {
                    assert(ids.push(id).drop_last() =~= ids);
                    assert(released@ =~= start + ids.push(id));
                }
            }
            i = i + 1;
        }
        proof {
            assert(resolved@.take(n as int) =~= resolved@);
            assert forall|t: DirtyView, policy: SchedulerEmissionPolicy|
                t.tile_x == tile_x && t.tile_y == tile_y implies self.state(released@)
                == #[trigger] old(self).state(old(released)@).renewed(
                t,
                old(self).rules(policy),
            ) by {
                let want = old(self).state(old(released)@).renewed(t, old(self).rules(policy));
                assert(self.state(released@) =~= want);
            }
        }
        generation
    }

    /// Queues one dirty tile.
    fn queue_tile(
        &mut self,
        t: &DirtyTile,
        policy: SchedulerEmissionPolicy,
        now: Instant,
        released: &mut Vec<u8>,
    )
        requires
            old(self).wf(),
            old(self).accepts(t@, policy),
        ensures
            final(self).wf(),
            final(self).same_rules(*old(self)),
            final(self).scheduler@.cols == old(self).scheduler@.cols,
            final(self).scheduler@.rows == old(self).scheduler@.rows,
            final(self).scheduler@.rtt == old(self).scheduler@.rtt,
            final(self).state(final(released)@) == old(self).state(old(released)@).queued(
                t@,
                old(self).rules(policy),
                now,
            ),
    {
        let ghost before = self.state(released@);
        let ghost rules = self.rules(policy);
        let state: CodecState = match policy {
            SchedulerEmissionPolicy::CpuRawOnly => CodecState::Bc1,
            SchedulerEmissionPolicy::GpuClassifierDriven => gate_codec_state(
                self.tiles.get(t.tile_x, t.tile_y).codec_state,
                self.cdf53_enabled,
                self.cdf53_supported,
            ),
        };
        if let CodecState::Cdf53 { .. } = state {
            return;
        }
        let generation: u8 = self.renew(t.tile_x, t.tile_y, released);
        let ghost renewed = self.state(released@);
        assert(renewed == before.renewed(t@, rules));
        let (codec, payload): (Codec, Vec<u8>) = match state {
            CodecState::Solid => (Codec::Solid, copy_range(t.solid.as_slice(), 0, t.solid.len())),
            CodecState::PalRle { .. } => match &t.palrle {
                Some(p) => (Codec::PalRle, copy_range(p.as_slice(), 0, p.len())),
                None => (Codec::Raw, copy_range(t.raw.as_slice(), 0, t.raw.len())),
            },
            _ => (Codec::Raw, copy_range(t.raw.as_slice(), 0, t.raw.len())),
        };
        proof {
            let want = encoding(t@, policy, before.codec_state(t@, rules));
            assert(t.raw@.subrange(0, t.raw@.len() as int) =~= t.raw@);
            assert(t.solid@.subrange(0, t.solid@.len() as int) =~= t.solid@);
            if t.palrle is Some {
                let p = t.palrle->0@;
                assert(p.subrange(0, p.len() as int) =~= p);
            }
            assert((codec, payload@) == want);
        }
        let ghost pv = payload@;
        let work = TileWork {
            tile_x: (t.tile_x % 256) as u8,
            tile_y: (t.tile_y % 256) as u8,
            generation,
            pass_idx: 0,
            total_passes: 1,
            codec,
            payload,
            queued_at: now,
            last_sent_at: None,
            state: WorkState::Pending,
        };
        let ghost w = work@;
        self.scheduler.enqueue(work, now);
        proof {
            assert(self.scheduler@ =~= renewed.sched.enqueued(w, now));
            assert(self.state(released@) =~= before.queued(t@, rules, now));
        }
    }

    /// Queues the dirty tiles of a frame in new generations, lets the scheduler
    /// send what is due, and fragments it for datagrams with at most `max_frag`
    /// bytes of payload.  A tile whose passes are in the refinement queue is
    /// left alone.
    ///
    /// All tiles are on the grid of the frame, which the scheduler takes over.
    pub fn dispatch_dirty_tiles_via_scheduler(
        &mut self,
        dirty: &[DirtyTile],
        cols: u32,
        rows: u32,
        rtts: &[Duration],
        seq: u32,
        timestamp_us: u32,
        max_frag: usize,
        policy: SchedulerEmissionPolicy,
        now: Instant,
    ) -> (out: Dispatched)
        requires
            old(self).wf(),
            cols * rows <= usize::MAX,
            max_frag > 0,
            forall|i: int|
                0 <= i < rtts@.len() ==> 2 * (#[trigger] rtts@[i]).nanos <= u128::MAX,
            forall|i: int|
                0 <= i < dirty@.len() ==> (#[trigger] dirty@[i]).tile_x < cols && dirty@[i].tile_y
                    < rows,
            policy == SchedulerEmissionPolicy::GpuClassifierDriven ==> forall|i: int|
                0 <= i < dirty@.len() ==> old(self).tiles.on_grid(
                    (#[trigger] dirty@[i]).tile_x,
                    dirty@[i].tile_y,
                ),
        ensures
            final(self).wf(),
            final(self).same_rules(*old(self)),
            exists|works: Seq<WorkView>| #[trigger]
                dispatched(
                    old(self).state(Seq::empty()),
                    final(self).state(out.released@),
                    old(self).rules(policy),
                    dirty_views(dirty@),
                    cols,
                    rows,
                    least_rtt(rtts@),
                    now,
                    works,
                    seq,
                ) && full_frame::contents(out.datagrams@) == all_datagrams(
                    works,
                    seq,
                    timestamp_us,
                    max_frag as nat,
                ),
    {
        let ghost s0 = self.state(Seq::empty());
        let ghost rules = self.rules(policy);
        let ghost views = dirty_views(dirty@);
        if self.scheduler.cols() != cols || self.scheduler.rows() != rows {
            self.scheduler.resize(cols, rows);
            assert(self.scheduler@ =~= s0.sched.resized(cols, rows));
        }
        let rtt: Duration = smallest_rtt(rtts);
        proof {
            least_rtt_is_small(rtts@);
        }
        self.scheduler.set_rtt(rtt);
        let mut released: Vec<u8> = Vec::new();
        let ghost s1 = synced(s0, cols, rows, rtt);
        assert(released@ =~= Seq::<u8>::empty());
        assert(self.state(released@) =~= s1);
        let n: usize = dirty.len();
        let mut i: usize = 0;
        assert(views.take(0) =~= Seq::empty());
        while i < n
            invariant
                i <= n,
                n == dirty@.len(),
                views == dirty_views(dirty@),
                self.wf(),
                self.same_rules(*old(self)),
                self.scheduler@.cols == cols,
                self.scheduler@.rows == rows,
                self.scheduler@.rtt == rtt,
                rules == old(self).rules(policy),
                forall|k: int|
                    0 <= k < dirty@.len() ==> (#[trigger] dirty@[k]).tile_x < cols
                        && dirty@[k].tile_y < rows,
                policy == SchedulerEmissionPolicy::GpuClassifierDriven ==> forall|k: int|
                    0 <= k < dirty@.len() ==> old(self).tiles.on_grid(
                        (#[trigger] dirty@[k]).tile_x,
                        dirty@[k].tile_y,
                    ),
                self.state(released@) == s1.all_queued(views.take(i as int), rules, now),
            decreases n - i,
        {
            proof {
                assert(views.take(i + 1).drop_last() =~= views.take(i as int));
                assert(views.take(i + 1).last() == dirty@[i as int]@);
                assert(dirty@[i as int].tile_x < cols);
            }
            self.queue_tile(&dirty[i], policy, now, &mut released);
            i = i + 1;
        }
        assert(views.take(n as int) =~= views);
        let ghost s2 = self.state(released@);
        let drained: Vec<TileWork> = self.scheduler.tick(usize::MAX, now);
        let ghost works = work::works(drained@);
        self.cover(&drained, seq);
        let datagrams: Vec<Vec<u8>> = fragment_all(&drained, seq, timestamp_us, max_frag);
        let out = Dispatched { datagrams, released };
        assert(dispatched(
            old(self).state(Seq::empty()),
            self.state(out.released@),
            old(self).rules(policy),
            dirty_views(dirty@),
            cols,
            rows,
            least_rtt(rtts@),
            now,
            works,
            seq,
        ));
        assert(full_frame::contents(out.datagrams@) == all_datagrams(
            works,
            seq,
            timestamp_us,
            max_frag as nat,
        ));
        out
    }

    /// Notes what emitted work carries.
    fn cover(&mut self, drained: &Vec<TileWork>, seq: u32)
        requires
            old(self).wf(),
        ensures
            final(self).wf(),
            final(self).same_rules(*old(self)),
            final(self).scheduler == old(self).scheduler,
            final(self).tiles == old(self).tiles,
            final(self).palettes == old(self).palettes,
            final(self).coverage@ == all_covered(
                old(self).coverage@,
                work::works(drained@),
                seq,
            ),
    {
        let ghost works = work::works(drained@);
        let frame: u32 = seq % 0x8000_0000;
        let n: usize = drained.len();
        let mut i: usize = 0;
        assert(works.take(0) =~= Seq::empty());
        while i < n
            invariant
                i <= n,
                n == drained@.len(),
                works == work::works(drained@),
                frame == acked_frame(seq),
                self.wf(),
                self.same_rules(*old(self)),
                self.scheduler == old(self).scheduler,
                self.tiles == old(self).tiles,
                self.palettes == old(self).palettes,
                self.coverage@ == all_covered(old(self).coverage@, works.take(i as int), seq),
            decreases n - i,
        {
            let w = &drained[i];
            proof {
                assert(works.take(i + 1).drop_last() =~= works.take(i as int));
                assert(works.take(i + 1).last() == w@);
            }
            let palette_id: Option<u8> = if w.codec == Codec::PalRle && w.payload.len() >= 2 {
                Some(w.payload[1])
            } else {
                None
            };
            let c = FragmentCoverage {
                tile_x: w.tile_x,
                tile_y: w.tile_y,
                generation: w.generation,
                pass_idx: w.pass_idx,
                codec: w.codec,
                palette_id,
            };
            let list = CoverageList::of(vec![c]);
            assert(list@ =~= seq![coverage_of(w@)]);
            self.coverage.record((frame, w.tile_x, w.tile_y, w.pass_idx), list);
            i = i + 1;
        }
        assert(works.take(n as int) =~= works);
    }
}

/// The state once the scheduler took over grid and round-trip time.
pub open spec fn synced(s: EmitState, cols: u32, rows: u32, rtt: Duration) -> EmitState {
    let sched = if s.sched.cols != cols || s.sched.rows != rows {
        s.sched.resized(cols, rows)
    } else {
        s.sched
    };
    EmitState { sched: SchedulerView { rtt, ..sched }, ..s }
}

/// What the emission of dirty tiles does: the tiles are queued, the scheduler
/// sends `works`, and their coverage is noted.
pub open spec fn dispatched(
    before: EmitState,
    after: EmitState,
    rules: EmitRules,
    dirty: Seq<DirtyView>,
    cols: u32,
    rows: u32,
    rtt: Duration,
    now: Instant,
    works: Seq<WorkView>,
    seq: u32,
) -> bool {
    let q = synced(before, cols, rows, rtt).all_queued(dirty, rules, now);
    &&& scheduler::ticked(q.sched, after.sched, works, usize::MAX as nat, now)
    &&& after.sched.gens == q.sched.gens
    &&& after.sched.acks == q.sched.acks
    &&& after.sched.rtt == rtt
    &&& after.sched.cols == cols
    &&& after.sched.rows == rows
    &&& after.tiles == q.tiles
    &&& after.palettes == q.palettes
    &&& after.released == q.released
    &&& after.coverage == all_covered(q.coverage, works, seq)
}

/// A tile on the grid is on it by the low bytes of its coordinates too.
proof fn low_byte_is_on_grid(cols: u32, rows: u32, tile_x: u32, tile_y: u32)
    requires
        tile_x < cols,
        tile_y < rows,
    ensures
        0 <= (tile_y % 256) * cols + (tile_x % 256) < cols * rows,
{
    let x = (tile_x % 256) as u32;
    let y = (tile_y % 256) as u32;
    tiles::place_is_inside(cols, rows, x, y);
}

/// The smallest of several spans that can be doubled can be doubled.
proof fn least_rtt_is_small(rtts: Seq<Duration>)
    requires
        forall|i: int| 0 <= i < rtts.len() ==> 2 * (#[trigger] rtts[i]).nanos <= u128::MAX,
    ensures
        2 * least_rtt(rtts).nanos <= u128::MAX,
    decreases rtts.len(),
{
    if rtts.len() > 1 {
        assert forall|i: int| 0 <= i < rtts.len() - 1 implies 2 * (
        #[trigger] rtts.drop_last()[i]).nanos <= u128::MAX by {
            assert(rtts.drop_last()[i] == rtts[i]);
        }
        least_rtt_is_small(rtts.drop_last());
        assert(2 * rtts[rtts.len() - 1].nanos <= u128::MAX);
    } else if rtts.len() == 1 {
        assert(2 * rtts[0].nanos <= u128::MAX);
    }
}

/// Fragments work that is sent.
fn fragment_all(
    drained: &Vec<TileWork>,
    seq: u32,
    timestamp_us: u32,
    max_frag: usize,
) -> (out: Vec<Vec<u8>>)
    requires
        max_frag > 0,
    ensures
        full_frame::contents(out@) == all_datagrams(
            work::works(drained@),
            seq,
            timestamp_us,
            max_frag as nat,
        ),
{
    let ghost works = work::works(drained@);
    let mut out: Vec<Vec<u8>> = Vec::new();
    let n: usize = drained.len();
    let mut i: usize = 0;
    assert(works.take(0) =~= Seq::empty());
    assert(full_frame::contents(out@) =~= Seq::empty());
    while i < n
        invariant
            i <= n,
            n == drained@.len(),
            max_frag > 0,
            works == work::works(drained@),
            full_frame::contents(out@) == all_datagrams(
                works.take(i as int),
                seq,
                timestamp_us,
                max_frag as nat,
            ),
        decreases n - i,
    {
        let w = &drained[i];
        proof {
            assert(works.take(i + 1).drop_last() =~= works.take(i as int));
            assert(works.take(i + 1).last() == w@);
        }
        let inputs = TileFragmentInputs {
            frame_seq: with_tile_flag(seq),
            tile_x: w.tile_x,
            tile_y: w.tile_y,
            codec: w.codec,
            generation: w.generation,
            pass: w.pass_idx,
            timestamp_us,
        };
        let fragments: Vec<Vec<u8>> = fragment_tile(&inputs, w.payload.as_slice(), max_frag);
        assert(full_frame::contents(fragments@) =~= work_datagrams(
            w@,
            seq,
            timestamp_us,
            max_frag as nat,
        ));
        full_frame::append_all(&mut out, fragments);
        i = i + 1;
    }
    assert(works.take(n as int) =~= works);
    out
}

} // verus!
