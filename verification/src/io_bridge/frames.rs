//! The course of a frame, decision by decision.
//!
//! Capture, graphics processor, encoder and connections are outside.  They
//! hand in what they found, and the bridge says what is to be done next.
use crate::client_caps::{ClientCapabilities, HelloMsg};
use crate::decode_error::{DecodeErrorMsg, ERR_THIN_UNCACHED_PALETTE};
use crate::fragment_coverage::{
    CoverageView, FragmentCoverageMap, FRAGMENT_COVERAGE_CAPACITY,
};
use crate::io_bridge::dispatch::Emission;
use crate::io_bridge::full_frame::RecentFragments;
use crate::io_bridge::messages::update_fec;
use crate::io_bridge::palettes::{DeliveryView, PaletteDelivery};
use crate::io_bridge::session;
use crate::io_bridge::session::{
    compute_max_datagram_size, compute_max_fragment, DimensionsAnnouncer, GateView, SessionGate,
    FRAME_DIMENSIONS_RETRANSMITS,
};
use crate::io_bridge::tiles;
use crate::io_bridge::tiles::{CodecState, FrameMode, TileState, TileTable};
use crate::io_bridge::{full_frame, messages, phases};
use crate::protocol;
use crate::protocol::max_fragment_payload;
use crate::scheduler::{
    DeliveryWindow, Scheduler, SchedulerView, DEFAULT_RTT_NANOS, MAX_FRACTION_PERMILLE,
};
use crate::time::Duration;
use vstd::prelude::*;

verus! {

broadcast use vstd::slice::group_slice_axioms;

/// Frames after a reconnect during which every tile counts as dirty, so that
/// what the congested start of a session drops is sent again.
pub const SLOW_START_FRAMES: u32 = 20;

/// What is fixed when the bridge is set up.
#[derive(Debug, Clone, Copy)]
pub struct BridgeSettings {
    pub cdf53_enabled: bool,
    /// Parity group size to start with; zero for none.
    pub fec_k: usize,
    /// A tile whose next palette payload a test wants spoiled.
    pub oob_inject_at: Option<(u32, u32)>,
    /// A test wants palettes to count as delivered across sessions.
    pub skip_palette_session_reset: bool,
}

/// The state of the bridge.
pub struct IoBridge {
    /// Number of the present frame.
    pub frame_seq: u32,
    /// How the last frame was emitted.
    pub frame_mode: FrameMode,
    pub emission: Emission,
    pub client_caps: ClientCapabilities,
    pub fec_k: usize,
    pub force_dirty_frames: u32,
    pub dimensions: DimensionsAnnouncer,
    pub sessions: SessionGate,
    pub recent: RecentFragments,
    pub oob_inject_at: Option<(u32, u32)>,
    pub skip_palette_session_reset: bool,
    /// Idle tiles to be refined with the present frame.
    pub escalation: Vec<u32>,
}

/// A frame that is emitted tile by tile on this side.
#[derive(Debug)]
pub struct CpuFrame {
    pub seq: u32,
    /// Most bytes of tile payload in a datagram.
    pub max_frag: usize,
    /// The announcement of the picture's size, if one is due.
    pub dimensions: Option<Vec<u8>>,
    /// Dirty tiles are to stay dirty.
    pub no_commit: bool,
}

/// A frame that the graphics processor analyses.
#[derive(Debug)]
pub struct GpuFrame {
    pub seq: u32,
    /// Most bytes in a datagram.
    pub max_dg_size: usize,
    /// The announcement of the picture's size, if one is due.
    pub dimensions: Option<Vec<u8>>,
}

/// How dirty tiles are looked for.
#[derive(Debug, Clone, Copy, PartialEq, Eq, Structural)]
pub enum DirtyScan {
    /// Everywhere, and nothing is remembered.
    NoCommit,
    /// Everywhere.
    Full,
    /// Where the window system says that something changed.
    Hinted,
}

/// What a change of the frame mode asks for.
#[derive(Debug, Clone, Copy, PartialEq, Eq, Structural)]
pub struct ModeChange {
    /// Every tile is to be sent again in full quality.
    pub invalidate_baseline: bool,
    /// The next video frame is to stand on its own.
    pub request_keyframe: bool,
}

/// What is emitted of a frame.
#[derive(Debug, Clone, Copy, PartialEq, Eq, Structural)]
pub enum GpuEmission {
    Nothing,
    /// A video frame, in datagrams of at most so many bytes.
    FullFrame { max_dg_size: usize },
    /// Tiles, with at most so many bytes of payload in a datagram.
    Tiles { max_frag: usize },
}

/// Where the pixels of a frame come from.
#[derive(Debug, Clone, Copy, PartialEq, Eq, Structural)]
pub enum PixelSource {
    /// They came with the frame.
    Given,
    /// They are to be read back from the graphics memory.
    Readback,
    /// There are none; the frame is skipped, as it would come out black.
    Missing,
}

/// What is to be done outside when a new client makes the bridge start over.
#[derive(Debug, Clone, Copy, PartialEq, Eq, Structural)]
pub struct SessionReset {
    /// Frames during which the graphics processor treats all tiles as dirty.
    pub invalidate_frames: u32,
}

/// The number after `n`, starting over behind the last.
pub open spec fn next_seq(n: u32) -> u32 {
    ((n + 1) % 0x1_0000_0000) as u32
}

impl IoBridge {
    pub open spec fn wf(&self) -> bool {
        &&& self.emission.wf()
        &&& self.sessions.wf()
        &&& self.recent.wf()
    }

    /// The bridge before the first frame and the first client.
    pub fn new(settings: BridgeSettings) -> (b: Self)
        ensures
            b.wf(),
            b.frame_seq == 0,
            b.frame_mode == FrameMode::TileCodec,
            b.emission.scheduler@ == (SchedulerView {
                cols: 0,
                rows: 0,
                gens: Seq::empty(),
                priority: Seq::empty(),
                refinement: Seq::empty(),
                rtt: Duration { nanos: DEFAULT_RTT_NANOS },
                delivery: DeliveryWindow {
                    emitted: 0,
                    acked: 0,
                    low_rounds: 0,
                    high_rounds: 0,
                    fraction_permille: MAX_FRACTION_PERMILLE,
                },
                acks: Map::empty(),
            }),
            b.emission.tiles.cols == 0,
            b.emission.tiles.rows == 0,
            b.emission.palettes@ == DeliveryView::fresh(None),
            b.emission.coverage@ == (CoverageView {
                capacity: FRAGMENT_COVERAGE_CAPACITY as nat,
                order: Seq::empty(),
                entries: Map::empty(),
            }),
            b.emission.cdf53_enabled == settings.cdf53_enabled,
            !b.emission.cdf53_supported,
            !b.client_caps.indices_raw_enabled,
            !b.client_caps.supports_h264,
            b.fec_k == settings.fec_k,
            b.force_dirty_frames == 0,
            b.dimensions == (DimensionsAnnouncer { last: None, left: 0 }),
            b.sessions@ == (GateView { fired: Set::empty(), seen: false }),
            b.recent@ == Map::<u64, Seq<u8>>::empty(),
            b.oob_inject_at == settings.oob_inject_at,
            b.skip_palette_session_reset == settings.skip_palette_session_reset,
            b.escalation@.len() == 0,
    {
        let b = IoBridge {
            frame_seq: 0,
            frame_mode: FrameMode::TileCodec,
            emission: Emission {
                scheduler: Scheduler::new(0, 0),
                tiles: TileTable::new(0, 0),
                palettes: PaletteDelivery::new(),
                coverage: FragmentCoverageMap::new(FRAGMENT_COVERAGE_CAPACITY),
                cdf53_enabled: settings.cdf53_enabled,
                cdf53_supported: false,
            },
            client_caps: ClientCapabilities::default(),
            fec_k: settings.fec_k,
            force_dirty_frames: 0,
            dimensions: DimensionsAnnouncer::new(),
            sessions: SessionGate::new(),
            recent: RecentFragments::new(),
            oob_inject_at: settings.oob_inject_at,
            skip_palette_session_reset: settings.skip_palette_session_reset,
            escalation: Vec::new(),
        };
        assert(b.emission.scheduler@.gens =~= Seq::empty());
        b
    }

    /// What the client said it can do; nothing until it did.
    pub fn current_client_caps(&self) -> (c: ClientCapabilities)
        ensures
            c == self.client_caps,
    {
        self.client_caps
    }

    /// Takes over what the client says it can do.
    pub fn apply_hello(&mut self, msg: HelloMsg)
        ensures
            *final(self) == (IoBridge { client_caps: msg.caps, ..*old(self) }),
    {
        self.client_caps = msg.caps;
    }

    /// Switches parity on or off after a receiver report.
    pub fn update_fec_from_feedback(&mut self, received: u32, lost: u32)
        ensures
            *final(self) == (IoBridge {
                fec_k: (if old(self).fec_k == 0 && messages::much_is_lost(received, lost) {
                    messages::FEC_GROUP
                } else if old(self).fec_k > 0 && messages::little_is_lost(received, lost) {
                    0
                } else {
                    old(self).fec_k
                }),
                ..*old(self)
            }),
    {
        self.fec_k = update_fec(self.fec_k, received, lost);
    }

    /// Takes in a report that a tile could not be decoded.  If the client
    /// lacks the palette of the tile's last payload, the next payload is to
    /// carry it again; gives the number of that palette.
    pub fn handle_decode_error(&mut self, msg: DecodeErrorMsg) -> (rebundle: Option<u8>)
        requires
            old(self).wf(),
            msg.error_code == ERR_THIN_UNCACHED_PALETTE ==> old(self).emission.tiles.on_grid(
                msg.tile_x as u32,
                msg.tile_y as u32,
            ),
        ensures
            final(self).wf(),
            rebundle == (if msg.error_code == ERR_THIN_UNCACHED_PALETTE {
                match old(self).emission.tiles.at(
                    msg.tile_x as u32,
                    msg.tile_y as u32,
                ).codec_state {
                    CodecState::PalRle { palette_id } => Some(palette_id),
                    _ => None,
                }
            } else {
                None
            }),
            final(self).emission.palettes@ == (match rebundle {
                Some(id) => old(self).emission.palettes@.rebundled(id),
                None => old(self).emission.palettes@,
            }),
            *final(self) == (IoBridge {
                emission: Emission {
                    palettes: final(self).emission.palettes,
                    ..old(self).emission
                },
                ..*old(self)
            }),
    {
        if msg.error_code != ERR_THIN_UNCACHED_PALETTE {
            return None;
        }
        match self.emission.tiles.get(msg.tile_x as u32, msg.tile_y as u32).codec_state {
            CodecState::PalRle { palette_id } => {
                self.emission.palettes.force_rebundle(palette_id);
                Some(palette_id)
            },
            _ => None,
        }
    }

    /// A connection was seen; `connected` says whether its session stands.
    /// For a client that reconnects the bridge starts over.
    pub fn maybe_fire_session_reset(&mut self, handle: u64, connected: bool) -> (r: Option<
        SessionReset,
    >)
        requires
            old(self).wf(),
        ensures
            final(self).wf(),
            final(self).sessions@ == old(self).sessions@.after(handle, connected),
            if old(self).sessions@.fires(handle, connected) {
                r == Some(SessionReset { invalidate_frames: SLOW_START_FRAMES })
                    && started_over(*old(self), *final(self))
            } else {
                r is None && *final(self) == (IoBridge {
                    sessions: final(self).sessions,
                    ..*old(self)
                })
            },
    {
        if self.sessions.maybe_fire_session_reset(handle, connected) {
            Some(self.fire_session_reset())
        } else {
            None
        }
    }

    /// Starts over: the new client has nothing of what the last one had.
    fn fire_session_reset(&mut self) -> (r: SessionReset)
        requires
            old(self).wf(),
        ensures
            final(self).wf(),
            final(self).sessions == old(self).sessions,
            r == (SessionReset { invalidate_frames: SLOW_START_FRAMES }),
            started_over(*old(self), *final(self)),
    {
        self.emission.tiles.reset();
        self.emission.scheduler.clear();
        self.emission.palettes.on_session_reset(self.skip_palette_session_reset);
        // A single video frame gets through where all tiles at once would not.
        self.frame_mode = FrameMode::H264;
        self.dimensions.prime();
        self.force_dirty_frames = SLOW_START_FRAMES;
        assert(self.emission.scheduler@ =~= (SchedulerView {
            priority: Seq::empty(),
            refinement: Seq::empty(),
            ..old(self).emission.scheduler@
        }));
        SessionReset { invalidate_frames: SLOW_START_FRAMES }
    }

    /// Begins a frame that is emitted on this side.  Without a session that
    /// takes datagrams the frame is dropped, before dirty tiles are looked
    /// for, so that they are still dirty once a client is there.
    pub fn begin_cpu_frame(
        &mut self,
        sizes: &[Option<usize>],
        timestamp_us: u32,
        width: u32,
        height: u32,
    ) -> (r: Option<CpuFrame>)
        ensures
            final(self).frame_seq == next_seq(old(self).frame_seq),
            match (r, session::positive(session::smallest(sizes@, session::tile_payload_fn()))) {
                (Some(f), Some(room)) => {
                    &&& f.seq == final(self).frame_seq
                    &&& f.max_frag == room
                    &&& f.max_frag > 0
                    &&& f.no_commit == (old(self).force_dirty_frames > 0)
                    &&& announced(
                        f.dimensions,
                        old(self).dimensions,
                        f.seq,
                        timestamp_us,
                        width,
                        height,
                    )
                    &&& *final(self) == (IoBridge {
                        frame_seq: f.seq,
                        dimensions: old(self).dimensions.after(width, height),
                        force_dirty_frames: (if old(self).force_dirty_frames > 0 {
                            (old(self).force_dirty_frames - 1) as u32
                        } else {
                            0
                        }),
                        ..*old(self)
                    })
                },
                (None, None) => *final(self) == (IoBridge {
                    frame_seq: final(self).frame_seq,
                    ..*old(self)
                }),
                _ => false,
            },
    {
        self.frame_seq = self.frame_seq.wrapping_add(1);
        let seq: u32 = self.frame_seq;
        let max_frag: usize = match compute_max_fragment(sizes) {
            Some(n) => n,
            None => {
                return None;
            },
        };
        let dimensions = self.dimensions.emit_frame_dimensions(seq, timestamp_us, width, height);
        let no_commit: bool = self.force_dirty_frames > 0;
        if no_commit {
            self.force_dirty_frames = self.force_dirty_frames - 1;
        }
        Some(CpuFrame { seq, max_frag, dimensions, no_commit })
    }

    /// Begins a frame that the graphics processor analyses; dropped without a
    /// session that takes datagrams.
    pub fn begin_gpu_frame(
        &mut self,
        sizes: &[Option<usize>],
        timestamp_us: u32,
        width: u32,
        height: u32,
    ) -> (r: Option<GpuFrame>)
        ensures
            final(self).frame_seq == next_seq(old(self).frame_seq),
            match (r, session::positive(session::smallest(sizes@, session::usable_fn()))) {
                (Some(f), Some(room)) => {
                    &&& f.seq == final(self).frame_seq
                    &&& f.max_dg_size == room
                    &&& announced(
                        f.dimensions,
                        old(self).dimensions,
                        f.seq,
                        timestamp_us,
                        width,
                        height,
                    )
                    &&& *final(self) == (IoBridge {
                        frame_seq: f.seq,
                        dimensions: old(self).dimensions.after(width, height),
                        ..*old(self)
                    })
                },
                (None, None) => *final(self) == (IoBridge {
                    frame_seq: final(self).frame_seq,
                    ..*old(self)
                }),
                _ => false,
            },
    {
        self.frame_seq = self.frame_seq.wrapping_add(1);
        let seq: u32 = self.frame_seq;
        let max_dg_size: usize = match compute_max_datagram_size(sizes) {
            Some(n) => n,
            None => {
                return None;
            },
        };
        let dimensions = self.dimensions.emit_frame_dimensions(seq, timestamp_us, width, height);
        Some(GpuFrame { seq, max_dg_size, dimensions })
    }

    /// Takes over the idle tiles that could be refined with this frame: none
    /// unless both sides agree on Cdf53.
    pub fn set_escalation(&mut self, candidates: Vec<u32>)
        ensures
            final(self).escalation@ == (if old(self).emission.cdf53_enabled && old(self).emission.cdf53_supported {
                candidates@
            } else {
                Seq::empty()
            }),
            *final(self) == (IoBridge { escalation: final(self).escalation, ..*old(self) }),
    {
        if self.emission.cdf53_enabled && self.emission.cdf53_supported {
            self.escalation = candidates;
        } else {
            self.escalation = Vec::new();
        }
    }

    /// Takes over the grid of a frame that the graphics processor analysed; on
    /// another grid everything remembered of tiles is stale.
    pub fn sync_grid(&mut self, cols: u32, rows: u32)
        requires
            old(self).wf(),
            cols * rows <= usize::MAX,
        ensures
            final(self).wf(),
            final(self).emission.tiles.cols == cols,
            final(self).emission.tiles.rows == rows,
            if old(self).emission.tiles.cols == cols && old(self).emission.tiles.rows == rows {
                *final(self) == *old(self)
            } else {
                &&& final(self).emission.scheduler@ == old(self).emission.scheduler@.resized(
                    cols,
                    rows,
                )
                &&& forall|i: int|
                    0 <= i < final(self).emission.tiles.tiles@.len() ==> final(self).emission.tiles.tiles@[i] == tiles::blank_tile()
                &&& *final(self) == (IoBridge {
                    emission: Emission {
                        tiles: final(self).emission.tiles,
                        scheduler: final(self).emission.scheduler,
                        ..old(self).emission
                    },
                    ..*old(self)
                })
            },
    {
        if self.emission.tiles.cols != cols || self.emission.tiles.rows != rows {
            self.emission.tiles.resize(cols, rows);
            self.emission.scheduler.resize(cols, rows);
            assert(self.emission.scheduler@ =~= old(self).emission.scheduler@.resized(cols, rows));
        }
    }

    /// Takes over the grid of a frame that is emitted on this side.  The
    /// scheduler takes it over when the tiles are dispatched.
    pub fn sync_tiles(&mut self, cols: u32, rows: u32)
        requires
            old(self).wf(),
            cols * rows <= usize::MAX,
        ensures
            final(self).wf(),
            final(self).emission.tiles.cols == cols,
            final(self).emission.tiles.rows == rows,
            if old(self).emission.tiles.cols == cols && old(self).emission.tiles.rows == rows {
                *final(self) == *old(self)
            } else {
                &&& forall|i: int|
                    0 <= i < final(self).emission.tiles.tiles@.len() ==> final(self).emission.tiles.tiles@[i] == tiles::blank_tile()
                &&& *final(self) == (IoBridge {
                    emission: Emission {
                        tiles: final(self).emission.tiles,
                        ..old(self).emission
                    },
                    ..*old(self)
                })
            },
    {
        if self.emission.tiles.cols != cols || self.emission.tiles.rows != rows {
            self.emission.tiles.resize(cols, rows);
        }
    }

    /// Takes over what the dirty tiles were classified for.
    pub fn set_codec_states(&mut self, dirty: &[(u32, u32)], states: &[CodecState])
        requires
            old(self).wf(),
            dirty@.len() == states@.len(),
            forall|i: int|
                0 <= i < dirty@.len() ==> old(self).emission.tiles.on_grid(
                    (#[trigger] dirty@[i]).0,
                    dirty@[i].1,
                ),
        ensures
            final(self).wf(),
            final(self).emission.tiles.cols == old(self).emission.tiles.cols,
            final(self).emission.tiles.rows == old(self).emission.tiles.rows,
            final(self).emission.tiles.tiles@ == classified(
                old(self).emission.tiles.tiles@,
                old(self).emission.tiles.cols,
                dirty@,
                states@,
            ),
            *final(self) == (IoBridge {
                emission: Emission { tiles: final(self).emission.tiles, ..old(self).emission },
                ..*old(self)
            }),
    {
        let n: usize = dirty.len();
        let mut i: usize = 0;
        assert(dirty@.take(0) =~= Seq::empty());
        while i < n
            invariant
                i <= n,
                n == dirty@.len(),
                n == states@.len(),
                self.wf(),
                self.emission.tiles.cols == old(self).emission.tiles.cols,
                self.emission.tiles.rows == old(self).emission.tiles.rows,
                forall|k: int|
                    0 <= k < dirty@.len() ==> old(self).emission.tiles.on_grid(
                        (#[trigger] dirty@[k]).0,
                        dirty@[k].1,
                    ),
                self.emission.tiles.tiles@ == classified(
                    old(self).emission.tiles.tiles@,
                    old(self).emission.tiles.cols,
                    dirty@.take(i as int),
                    states@.take(i as int),
                ),
                *self == (IoBridge {
                    emission: Emission { tiles: self.emission.tiles, ..old(self).emission },
                    ..*old(self)
                }),
            decreases n - i,
        {
            proof {
                assert(dirty@.take(i + 1).drop_last() =~= dirty@.take(i as int));
                assert(dirty@.take(i + 1).last() == dirty@[i as int]);
                assert(states@.take(i + 1).drop_last() =~= states@.take(i as int));
                assert(states@.take(i + 1).last() == states@[i as int]);
            }
            let mut t = self.emission.tiles.get(dirty[i].0, dirty[i].1);
            t.codec_state = states[i];
            self.emission.tiles.set(dirty[i].0, dirty[i].1, t);
            i = i + 1;
        }
        assert(dirty@.take(n as int) =~= dirty@);
        assert(states@.take(n as int) =~= states@);
    }

    /// Takes over the mode that the classifier chose.
    ///
    /// From video to tiles every tile is to be sent again, since what is on
    /// the screen has lost quality; from tiles to video the next frame is to
    /// stand on its own.
    pub fn change_mode(&mut self, new_mode: FrameMode) -> (c: ModeChange)
        ensures
            *final(self) == (IoBridge { frame_mode: new_mode, ..*old(self) }),
            c.invalidate_baseline == (old(self).frame_mode == FrameMode::H264 && new_mode
                == FrameMode::TileCodec),
            c.request_keyframe == (old(self).frame_mode == FrameMode::TileCodec && new_mode
                == FrameMode::H264),
    {
        let prev: FrameMode = self.frame_mode;
        self.frame_mode = new_mode;
        ModeChange {
            invalidate_baseline: prev == FrameMode::H264 && new_mode == FrameMode::TileCodec,
            request_keyframe: prev == FrameMode::TileCodec && new_mode == FrameMode::H264,
        }
    }
}

/// The announcement that goes with a frame.
pub open spec fn announced(
    dg: Option<Vec<u8>>,
    before: DimensionsAnnouncer,
    seq: u32,
    timestamp_us: u32,
    width: u32,
    height: u32,
) -> bool {
    match dg {
        Some(d) => before.due(width, height) > 0 && d@ == protocol::frame_dimensions_datagram(
            seq,
            timestamp_us,
            width,
            height,
        ),
        None => before.due(width, height) == 0,
    }
}

/// The bridge started over: tile states, queued work and palettes of the last
/// client are gone, the size of the picture is announced again, and all tiles
/// count as dirty for a while.  Generations, coverage and numbering go on.
pub open spec fn started_over(before: IoBridge, after: IoBridge) -> bool {
    &&& after.frame_mode == FrameMode::H264
    &&& after.force_dirty_frames == SLOW_START_FRAMES
    &&& after.dimensions == (DimensionsAnnouncer {
        left: FRAME_DIMENSIONS_RETRANSMITS,
        ..before.dimensions
    })
    &&& after.emission.scheduler@ == (SchedulerView {
        priority: Seq::empty(),
        refinement: Seq::empty(),
        ..before.emission.scheduler@
    })
    &&& after.emission.tiles.cols == before.emission.tiles.cols
    &&& after.emission.tiles.rows == before.emission.tiles.rows
    &&& forall|i: int|
        0 <= i < after.emission.tiles.tiles@.len() ==> after.emission.tiles.tiles@[i]
            == tiles::blank_tile()
    &&& after.emission.palettes@ == DeliveryView::fresh(
        if before.skip_palette_session_reset {
            Some(before.emission.palettes@.delivered)
        } else {
            None
        },
    )
    &&& after.emission.coverage == before.emission.coverage
    &&& after.emission.cdf53_enabled == before.emission.cdf53_enabled
    &&& after.emission.cdf53_supported == before.emission.cdf53_supported
    &&& after.frame_seq == before.frame_seq
    &&& after.client_caps == before.client_caps
    &&& after.fec_k == before.fec_k
    &&& after.recent == before.recent
    &&& after.oob_inject_at == before.oob_inject_at
    &&& after.skip_palette_session_reset == before.skip_palette_session_reset
    &&& after.escalation == before.escalation
}

/// The tile states after the dirty tiles were classified.
pub open spec fn classified(
    s: Seq<TileState>,
    cols: u32,
    dirty: Seq<(u32, u32)>,
    states: Seq<CodecState>,
) -> Seq<TileState>
    decreases dirty.len(),
{
    if dirty.len() == 0 {
        s
    } else {
        phases::with_codec_state(
            classified(s, cols, dirty.drop_last(), states.drop_last()),
            tiles::place(cols, dirty.last().0, dirty.last().1),
            states.last(),
        )
    }
}

/// How dirty tiles are looked for: everywhere while they are to stay dirty and
/// on the first frame after that, since what was remembered until then is
/// empty; else where changes are reported, if they are.
pub fn scan_for(no_commit: bool, has_been_committed: bool, has_hints: bool) -> (s: DirtyScan)
    ensures
        s == (if no_commit {
            DirtyScan::NoCommit
        } else if has_been_committed && has_hints {
            DirtyScan::Hinted
        } else {
            DirtyScan::Full
        }),
{
    if no_commit {
        DirtyScan::NoCommit
    } else if !has_been_committed {
        DirtyScan::Full
    } else if has_hints {
        DirtyScan::Hinted
    } else {
        DirtyScan::Full
    }
}

/// Whether a frame goes to the graphics processor.
pub fn uses_gpu(has_dmabuf: bool, has_processor: bool) -> (b: bool)
    ensures
        b == (has_dmabuf && has_processor),
{
    has_dmabuf && has_processor
}

/// What is emitted of a frame in some mode: nothing if nothing is dirty, or if
/// a datagram has no room for a tile.
pub fn emission_for(mode: FrameMode, nothing_dirty: bool, max_dg_size: usize) -> (e: GpuEmission)
    ensures
        e == (if nothing_dirty {
            GpuEmission::Nothing
        } else if mode == FrameMode::H264 {
            GpuEmission::FullFrame { max_dg_size }
        } else if max_dg_size <= protocol::DATAGRAM_HEADER_SIZE + protocol::TILE_HEADER_SIZE {
            GpuEmission::Nothing
        } else {
            GpuEmission::Tiles {
                max_frag: (max_dg_size - (protocol::DATAGRAM_HEADER_SIZE
                    + protocol::TILE_HEADER_SIZE)) as usize,
            }
        }),
{
    if nothing_dirty {
        return GpuEmission::Nothing;
    }
    match mode {
        FrameMode::H264 => GpuEmission::FullFrame { max_dg_size },
        FrameMode::TileCodec => {
            let max_frag: usize = max_fragment_payload(max_dg_size);
            if max_frag == 0 {
                GpuEmission::Nothing
            } else {
                GpuEmission::Tiles { max_frag }
            }
        },
    }
}

/// Whether the video encoder is to be set up anew, given the size it was set
/// up for.
pub fn encoder_needs_init(encoder: Option<(u32, u32)>, width: u32, height: u32) -> (b: bool)
    ensures
        b == (encoder != Some((width, height))),
{
    match encoder {
        Some(size) => size.0 != width || size.1 != height,
        None => true,
    }
}

/// Where the pixels of tiles come from.
pub fn pixel_source(has_pixels: bool, has_dmabuf: bool) -> (s: PixelSource)
    ensures
        s == (if has_pixels {
            PixelSource::Given
        } else if has_dmabuf {
            PixelSource::Readback
        } else {
            PixelSource::Missing
        }),
{
    if has_pixels {
        PixelSource::Given
    } else if has_dmabuf {
        PixelSource::Readback
    } else {
        PixelSource::Missing
    }
}

/// The number of tiles that cover a length, with tiles of side `tile_size`.
pub open spec fn tiles_across(length: u32, tile_size: u32) -> int {
    if length % tile_size == 0 {
        (length / tile_size) as int
    } else {
        length / tile_size + 1
    }
}

/// The columns and rows of the grid over a picture.
pub fn grid_for(width: u32, height: u32, tile_size: u32) -> (g: (u32, u32))
    requires
        tile_size > 0,
    ensures
        g.0 == tiles_across(width, tile_size),
        g.1 == tiles_across(height, tile_size),
{
    (count_across(width, tile_size), count_across(height, tile_size))
}

fn count_across(length: u32, tile_size: u32) -> (n: u32)
    requires
        tile_size > 0,
    ensures
        n == tiles_across(length, tile_size),
{
    if length % tile_size == 0 {
        length / tile_size
    } else {
        assert(length / tile_size < u32::MAX) by (nonlinear_arith)
            requires
                tile_size > 0,
                length % tile_size != 0,
                length <= u32::MAX,
        ;
        length / tile_size + 1
    }
}

/// The coordinates of tiles given by their index, row by row.
pub fn tile_coordinates(indices: &[u32], cols: u32) -> (out: Vec<(u32, u32)>)
    requires
        cols > 0,
    ensures
        out@.len() == indices@.len(),
        forall|i: int|
            0 <= i < out@.len() ==> #[trigger] out@[i] == (
                (indices@[i] % cols) as u32,
                (indices@[i] / cols) as u32,
            ),
{
    let n: usize = indices.len();
    let mut out: Vec<(u32, u32)> = Vec::new();
    let mut i: usize = 0;
    while i < n
        invariant
            i <= n,
            n == indices@.len(),
            cols > 0,
            out@.len() == i,
            forall|k: int|
                0 <= k < i ==> #[trigger] out@[k] == (
                    (indices@[k] % cols) as u32,
                    (indices@[k] / cols) as u32,
                ),
        decreases n - i,
    {
        out.push((indices[i] % cols, indices[i] / cols));
        i = i + 1;
    }
    out
}

/// A tile's coordinates give its index back.
pub proof fn coordinates_are_exact(index: u32, cols: u32)
    requires
        cols > 0,
    ensures
        tiles::place(cols, (index % cols) as u32, (index / cols) as u32) == index,
{
    assert(index == (index / cols) * cols + index % cols) by (nonlinear_arith)
        requires
            cols > 0,
    ;
}

} // verus!
