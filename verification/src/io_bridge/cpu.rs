//! The end of a frame that is emitted on this side.
use crate::io_bridge::dispatch;
use crate::io_bridge::dispatch::{
    DirtyTile, Dispatched, EmitRules, EmitState, SchedulerEmissionPolicy,
};
use crate::io_bridge::frames::{CpuFrame, IoBridge};
use crate::io_bridge::full_frame;
use crate::scheduler::work::WorkView;
use crate::time::{Duration, Instant};
use vstd::prelude::*;

verus! {

broadcast use vstd::slice::group_slice_axioms;

impl IoBridge {
    /// Emits the dirty tiles of a frame raw.  A frame without any leaves
    /// everything as it is; else the tile states take over the frame's grid
    /// first.
    pub fn emit_cpu_frame(
        &mut self,
        frame: &CpuFrame,
        timestamp_us: u32,
        cols: u32,
        rows: u32,
        dirty: &[DirtyTile],
        rtts: &[Duration],
        now: Instant,
    ) -> (out: Dispatched)
        requires
            old(self).wf(),
            frame.max_frag > 0,
            cols * rows <= usize::MAX,
            forall|i: int| 0 <= i < rtts@.len() ==> 2 * (#[trigger] rtts@[i]).nanos <= u128::MAX,
            forall|i: int|
                0 <= i < dirty@.len() ==> (#[trigger] dirty@[i]).tile_x < cols && dirty@[i].tile_y
                    < rows,
        ensures
            final(self).wf(),
            dirty@.len() == 0 ==> *final(self) == *old(self) && out.datagrams@.len() == 0
                && out.released@.len() == 0,
            dirty@.len() > 0 ==> ({
                let before = EmitState {
                    tiles: old(self).synced_tiles(cols, rows),
                    ..old(self).emission.state(Seq::empty())
                };
                let rules = EmitRules {
                    policy: SchedulerEmissionPolicy::CpuRawOnly,
                    cols,
                    rows,
                    cdf53_enabled: old(self).emission.cdf53_enabled,
                    cdf53_supported: old(self).emission.cdf53_supported,
                };
                exists|works: Seq<WorkView>| #[trigger]
                    dispatch::dispatched(
                        before,
                        final(self).emission.state(out.released@),
                        rules,
                        dispatch::dirty_views(dirty@),
                        cols,
                        rows,
                        dispatch::least_rtt(rtts@),
                        now,
                        works,
                        frame.seq,
                    ) && full_frame::contents(out.datagrams@) == dispatch::all_datagrams(
                        works,
                        frame.seq,
                        timestamp_us,
                        frame.max_frag as nat,
                    )
            }),
            *final(self) == (IoBridge { emission: final(self).emission, ..*old(self) }),
    {
        if dirty.len() == 0 {
            return Dispatched { datagrams: Vec::new(), released: Vec::new() };
        }
        self.sync_tiles(cols, rows);
        assert(self.emission.tiles.tiles@ =~= old(self).synced_tiles(cols, rows));
        self.emission.dispatch_dirty_tiles_via_scheduler(
            dirty,
            cols,
            rows,
            rtts,
            frame.seq,
            timestamp_us,
            frame.max_frag,
            SchedulerEmissionPolicy::CpuRawOnly,
            now,
        )
    }
}

} // verus!
