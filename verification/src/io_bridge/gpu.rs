//! The course of a frame that the graphics processor analyses: once it is
//! begun, its analysis is taken in, its tiles are classified, and what was
//! encoded for refinement is queued.
use crate::io_bridge::dispatch::{EmitState, Emission};
use crate::io_bridge::frames;
use crate::io_bridge::frames::{
    emission_for, encoder_needs_init, pixel_source, tile_coordinates, GpuEmission, GpuFrame,
    IoBridge, PixelSource,
};
use crate::io_bridge::full_frame;
use crate::io_bridge::tiles;
use crate::io_bridge::tiles::{
    populate_gpu_metrics, CodecState, FrameMode, TileAnalysis, TileState,
};
use crate::protocol;
use crate::scheduler::SchedulerView;
use crate::time::Instant;
use std::collections::VecDeque;
use vstd::prelude::*;

verus! {

broadcast use {
    vstd::slice::group_slice_axioms,
    vstd::std_specs::vecdeque::group_vec_dequeue_axioms,
};

/// What is outside of the bridge when a frame is classified.
#[derive(Debug, Clone, Copy, PartialEq, Eq)]
pub struct Surroundings {
    pub width: u32,
    pub height: u32,
    /// The size that the video encoder is set up for.
    pub encoder_size: Option<(u32, u32)>,
    /// The pixels came with the frame.
    pub has_pixels: bool,
    /// The frame is in graphics memory.
    pub has_dmabuf: bool,
}

/// What is to be done with a classified frame.
#[derive(Debug, Clone, Copy, PartialEq, Eq, Structural)]
pub struct GpuPlan {
    /// Every tile is to be sent again in full quality.
    pub invalidate_baseline: bool,
    pub emission: GpuEmission,
    /// For a video frame: the encoder is to be set up first.
    pub init_encoder: bool,
    /// For a video frame: it is to stand on its own.
    pub request_keyframe: bool,
    /// For tiles: where their pixels come from.
    pub pixels: PixelSource,
}

/// The coordinates of a tile given by its index, row by row.
pub open spec fn coordinates(index: u32, cols: u32) -> (u32, u32) {
    ((index % cols) as u32, (index / cols) as u32)
}

/// The coordinates of several tiles.
pub open spec fn all_coordinates(indices: Seq<u32>, cols: u32) -> Seq<(u32, u32)> {
    Seq::new(indices.len(), |i: int| coordinates(indices[i], cols))
}

/// What is emitted of a frame in some mode.
pub open spec fn emitted(mode: FrameMode, nothing_dirty: bool, max_dg_size: usize) -> GpuEmission {
    let headers = protocol::DATAGRAM_HEADER_SIZE + protocol::TILE_HEADER_SIZE;
    if nothing_dirty {
        GpuEmission::Nothing
    } else if mode == FrameMode::H264 {
        GpuEmission::FullFrame { max_dg_size }
    } else if max_dg_size <= headers {
        GpuEmission::Nothing
    } else {
        GpuEmission::Tiles { max_frag: (max_dg_size - headers) as usize }
    }
}

/// The plan for a frame: a change of the mode resets what the mode that is
/// entered builds on.
pub open spec fn plan(
    prev: FrameMode,
    mode: FrameMode,
    nothing_dirty: bool,
    max_dg_size: usize,
    around: Surroundings,
) -> GpuPlan {
    GpuPlan {
        invalidate_baseline: prev == FrameMode::H264 && mode == FrameMode::TileCodec,
        emission: emitted(mode, nothing_dirty, max_dg_size),
        init_encoder: around.encoder_size != Some((around.width, around.height)),
        request_keyframe: prev == FrameMode::TileCodec && mode == FrameMode::H264,
        pixels: if around.has_pixels {
            PixelSource::Given
        } else if around.has_dmabuf {
            PixelSource::Readback
        } else {
            PixelSource::Missing
        },
    }
}

/// The bytes of the passes of several tiles.
pub open spec fn all_passes(passes: Seq<Vec<Vec<u8>>>) -> Seq<Seq<Seq<u8>>> {
    passes.map_values(|p: Vec<Vec<u8>>| full_frame::contents(p@))
}

impl EmitState {
    /// The passes of several tiles are queued for refinement, in order.
    pub open spec fn all_refining(
        self,
        cols: u32,
        grid_cols: u32,
        list: Seq<u32>,
        passes: Seq<Seq<Seq<u8>>>,
        escalated: bool,
        now: Instant,
    ) -> EmitState
        decreases list.len(),
    {
        if list.len() == 0 {
            self
        } else {
            self.all_refining(
                cols,
                grid_cols,
                list.drop_last(),
                passes.drop_last(),
                escalated,
                now,
            ).refining(
                (list.last() % cols % 256) as u8,
                (list.last() / cols % 256) as u8,
                grid_cols,
                passes.last(),
                escalated,
                now,
            )
        }
    }
}

impl Emission {
    /// The tile with this index can be refined: the low bytes of its
    /// coordinates are on both grids.
    pub open spec fn refines(&self, cols: u32, index: u32) -> bool {
        let x = (index % cols % 256) as u32;
        let y = (index / cols % 256) as u32;
        self.tiles.on_grid(x, y) && x < self.scheduler@.cols && y < self.scheduler@.rows
    }

    /// Queues the passes of several tiles for refinement.
    fn enqueue_all_cdf53(
        &mut self,
        cols: u32,
        list: &[u32],
        mut passes: VecDeque<Vec<Vec<u8>>>,
        escalated: bool,
        now: Instant,
    )
        requires
            old(self).wf(),
            cols > 0,
            list@.len() == passes@.len(),
            forall|i: int| 0 <= i < list@.len() ==> old(self).refines(cols, #[trigger] list@[i]),
        ensures
            final(self).wf(),
            final(self).same_rules(*old(self)),
            final(self).scheduler@.cols == old(self).scheduler@.cols,
            final(self).scheduler@.rows == old(self).scheduler@.rows,
            final(self).state(Seq::empty()) == old(self).state(Seq::empty()).all_refining(
                cols,
                old(self).tiles.cols,
                list@,
                all_passes(passes@),
                escalated,
                now,
            ),
    {
        let ghost all = passes@;
        let ghost start = self.state(Seq::empty());
        let n: usize = list.len();
        let mut i: usize = 0;
        assert(all.skip(0) =~= all);
        while i < n
            invariant
                i <= n,
                n == list@.len(),
                n == all.len(),
                cols > 0,
                passes@ == all.skip(i as int),
                self.wf(),
                self.same_rules(*old(self)),
                self.scheduler@.cols == old(self).scheduler@.cols,
                self.scheduler@.rows == old(self).scheduler@.rows,
                forall|k: int| 0 <= k < n ==> old(self).refines(cols, #[trigger] list@[k]),
                self.state(Seq::empty()) == start.all_refining(
                    cols,
                    old(self).tiles.cols,
                    list@.take(i as int),
                    all_passes(all.take(i as int)),
                    escalated,
                    now,
                ),
            decreases n - i,
        {
            let ghost seen = all_passes(all.take(i + 1));
            proof {
                assert(old(self).refines(cols, list@[i as int]));
                assert(list@.take(i + 1).drop_last() =~= list@.take(i as int));
                assert(list@.take(i + 1).last() == list@[i as int]);
                assert(seen.drop_last() =~= all_passes(all.take(i as int)));
                assert(seen.last() == full_frame::contents(all[i as int]@));
            }
            if let Some(p) = passes.pop_front() {
                assert(p == all[i as int]);
                self.enqueue_cdf53(cols, list[i], p, escalated, now);
            }
            assert(passes@ =~= all.skip(i + 1));
            i = i + 1;
        }
        assert(list@.take(n as int) =~= list@);
        assert(all.take(n as int) =~= all);
    }
}

impl IoBridge {
    /// The tile states once the grid is that of a frame.
    pub open spec fn synced_tiles(&self, cols: u32, rows: u32) -> Seq<TileState> {
        if self.emission.tiles.cols == cols && self.emission.tiles.rows == rows {
            self.emission.tiles.tiles@
        } else {
            Seq::new((cols * rows) as nat, |i: int| tiles::blank_tile())
        }
    }

    /// The scheduler once the grid is that of a frame.
    pub open spec fn synced_scheduler(&self, cols: u32, rows: u32) -> SchedulerView {
        if self.emission.tiles.cols == cols && self.emission.tiles.rows == rows {
            self.emission.scheduler@
        } else {
            self.emission.scheduler@.resized(cols, rows)
        }
    }

    /// Takes in the analysis of a frame: the grid is that of the frame, and the
    /// dirty tiles take over what was found out about them.  Gives their
    /// coordinates.
    pub fn take_analysis(
        &mut self,
        cols: u32,
        rows: u32,
        dirty_tiles: &[u32],
        tile_analysis: &[TileAnalysis],
    ) -> (dirty: Vec<(u32, u32)>)
        requires
            old(self).wf(),
            cols > 0,
            cols * rows <= usize::MAX,
            forall|i: int| 0 <= i < dirty_tiles@.len() ==> #[trigger] dirty_tiles@[i] < cols * rows,
        ensures
            final(self).wf(),
            dirty@ == all_coordinates(dirty_tiles@, cols),
            final(self).emission.tiles.cols == cols,
            final(self).emission.tiles.rows == rows,
            forall|i: int|
                0 <= i < dirty@.len() ==> final(self).emission.tiles.on_grid(
                    (#[trigger] dirty@[i]).0,
                    dirty@[i].1,
                ),
            final(self).emission.tiles.tiles@ == tiles::populated(
                old(self).synced_tiles(cols, rows),
                cols,
                dirty@,
                cols,
                tile_analysis@,
            ),
            final(self).emission.scheduler@ == old(self).synced_scheduler(cols, rows),
            *final(self) == (IoBridge {
                emission: Emission {
                    tiles: final(self).emission.tiles,
                    scheduler: final(self).emission.scheduler,
                    ..old(self).emission
                },
                ..*old(self)
            }),
    {
        let dirty = tile_coordinates(dirty_tiles, cols);
        assert(dirty@ =~= all_coordinates(dirty_tiles@, cols));
        self.sync_grid(cols, rows);
        assert(self.emission.tiles.tiles@ =~= old(self).synced_tiles(cols, rows));
        proof {
            assert forall|i: int| 0 <= i < dirty@.len() implies self.emission.tiles.on_grid(
                (#[trigger] dirty@[i]).0,
                dirty@[i].1,
            ) by {
                index_is_on_grid(cols, rows, dirty_tiles@[i]);
            }
        }
        populate_gpu_metrics(&mut self.emission.tiles, dirty.as_slice(), cols, tile_analysis);
        dirty
    }

    /// Takes in how the dirty tiles were classified and which mode was chosen,
    /// and says what is to be done with the frame.
    pub fn take_classification(
        &mut self,
        frame: &GpuFrame,
        dirty: &[(u32, u32)],
        states: &[CodecState],
        mode: FrameMode,
        around: Surroundings,
    ) -> (p: GpuPlan)
        requires
            old(self).wf(),
            dirty@.len() == states@.len(),
            forall|i: int|
                0 <= i < dirty@.len() ==> old(self).emission.tiles.on_grid(
                    (#[trigger] dirty@[i]).0,
                    dirty@[i].1,
                ),
        ensures
            final(self).wf(),
            p == plan(old(self).frame_mode, mode, dirty@.len() == 0, frame.max_dg_size, around),
            final(self).emission.tiles.cols == old(self).emission.tiles.cols,
            final(self).emission.tiles.rows == old(self).emission.tiles.rows,
            final(self).emission.tiles.tiles@ == frames::classified(
                old(self).emission.tiles.tiles@,
                old(self).emission.tiles.cols,
                dirty@,
                states@,
            ),
            *final(self) == (IoBridge {
                frame_mode: mode,
                emission: Emission { tiles: final(self).emission.tiles, ..old(self).emission },
                ..*old(self)
            }),
    {
        self.set_codec_states(dirty, states);
        let change = self.change_mode(mode);
        GpuPlan {
            invalidate_baseline: change.invalidate_baseline,
            emission: emission_for(mode, dirty.len() == 0, frame.max_dg_size),
            init_encoder: encoder_needs_init(around.encoder_size, around.width, around.height),
            request_keyframe: change.request_keyframe,
            pixels: pixel_source(around.has_pixels, around.has_dmabuf),
        }
    }

    /// Queues what was encoded for refinement: the dirty tiles of `list` if
    /// both sides agree on Cdf53, then the idle tiles chosen for this frame,
    /// which are forgotten.
    pub fn enqueue_refinements(
        &mut self,
        cols: u32,
        list: &[u32],
        passes: VecDeque<Vec<Vec<u8>>>,
        idle_passes: VecDeque<Vec<Vec<u8>>>,
        now: Instant,
    )
        requires
            old(self).wf(),
            cols > 0,
            list@.len() == passes@.len(),
            old(self).escalation@.len() == idle_passes@.len(),
            forall|i: int|
                0 <= i < list@.len() ==> old(self).emission.refines(cols, #[trigger] list@[i]),
            forall|i: int|
                0 <= i < old(self).escalation@.len() ==> old(self).emission.refines(
                    cols,
                    #[trigger] old(self).escalation@[i],
                ),
        ensures
            final(self).wf(),
            final(self).emission.same_rules(old(self).emission),
            ({
                let before = old(self).emission.state(Seq::empty());
                let grid_cols = old(self).emission.tiles.cols;
                let dirty = if old(self).emission.cdf53_enabled && old(
                    self,
                ).emission.cdf53_supported {
                    before.all_refining(cols, grid_cols, list@, all_passes(passes@), false, now)
                } else {
                    before
                };
                final(self).emission.state(Seq::empty()) == dirty.all_refining(
                    cols,
                    grid_cols,
                    old(self).escalation@,
                    all_passes(idle_passes@),
                    true,
                    now,
                )
            }),
            final(self).escalation@ == Seq::<u32>::empty(),
            *final(self) == (IoBridge {
                emission: final(self).emission,
                escalation: final(self).escalation,
                ..*old(self)
            }),
    {
        if self.emission.cdf53_enabled && self.emission.cdf53_supported {
            self.emission.enqueue_all_cdf53(cols, list, passes, false, now);
        }
        let mut idle: Vec<u32> = Vec::new();
        std::mem::swap(&mut idle, &mut self.escalation);
        proof {
            assert forall|i: int| 0 <= i < idle@.len() implies self.emission.refines(
                cols,
                #[trigger] idle@[i],
            ) by {
                assert(old(self).emission.refines(cols, old(self).escalation@[i]));
            }
        }
        self.emission.enqueue_all_cdf53(cols, idle.as_slice(), idle_passes, true, now);
    }
}

/// A tile whose index is inside a grid is on it.
pub proof fn index_is_on_grid(cols: u32, rows: u32, index: u32)
    requires
        cols > 0,
        index < cols * rows,
    ensures
        coordinates(index, cols).0 < cols,
        coordinates(index, cols).1 < rows,
{
    assert(index / cols < rows && index % cols < cols) by (nonlinear_arith)
        requires
            cols > 0,
            index < cols * rows,
    ;
}

/// A frame that stays in its mode resets nothing, and one that changes it
/// resets exactly what the mode that is entered builds on.
pub proof fn modes_reset_each_other(
    prev: FrameMode,
    mode: FrameMode,
    nothing_dirty: bool,
    max_dg_size: usize,
    around: Surroundings,
)
    ensures
        ({
            let p = plan(prev, mode, nothing_dirty, max_dg_size, around);
            &&& prev == mode ==> !p.invalidate_baseline && !p.request_keyframe
            &&& prev != mode ==> (p.invalidate_baseline != p.request_keyframe)
        }),
{
}

} // verus!
