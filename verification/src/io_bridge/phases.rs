//! Preparation of palette and Cdf53 tiles before they are queued.
//!
//! The table of palettes is asked from outside, one tile at a time:
//! [`Emission::palette_request`] says what to ask it for, and
//! [`Emission::palette_answer`] takes the answer.  The tiles of a frame are
//! gone through in [`crate::io_bridge::palette_run`].
use crate::client_caps::ClientCapabilities;
use crate::io_bridge::dispatch::{EmitState, Emission};
use crate::io_bridge::full_frame;
use crate::io_bridge::palettes::DeliveryView;
use crate::io_bridge::tiles;
use crate::io_bridge::tiles::{CodecState, TileState};
use crate::scheduler::CDF53_PASS_COUNT;
use crate::time::Instant;
use crate::wire::copy_range;
use vstd::prelude::*;

verus! {

broadcast use vstd::slice::group_slice_axioms;

/// A colour.
#[derive(Debug, Clone, Copy, PartialEq, Eq, Structural)]
pub struct Color {
    pub b: u8,
    pub g: u8,
    pub r: u8,
    pub a: u8,
}

/// The colours of a palette.
#[derive(Debug)]
pub struct PaletteEntry {
    pub colors: Vec<Color>,
}

/// A palette as the graphics processor writes it.
#[derive(Debug)]
pub struct FramePaletteEntry {
    /// Number of colours; its low byte counts.
    pub count: u32,
    /// Colours as numbers, blue in the lowest byte.
    pub colors: Vec<u32>,
}

/// The colour that a number stands for.
pub open spec fn color_of(v: u32) -> Color {
    Color {
        b: (v % 256) as u8,
        g: (v / 256 % 256) as u8,
        r: (v / 65536 % 256) as u8,
        a: (v / 16777216) as u8,
    }
}

/// The colours of a palette as the graphics processor writes it.
pub open spec fn colors_of(count: u32, colors: Seq<u32>) -> Seq<Color> {
    Seq::new((count % 256) as nat, |i: int| color_of(colors[i]))
}

/// Says that the palettes of the frame overflowed.
pub const PALETTE_OVERFLOW: u8 = 0xFF;

/// Bytes of palette indices per tile.
pub const TILE_INDEX_BYTES: usize = 512;

/// How palette tiles of a frame fared.
#[derive(Debug, Clone, Copy, PartialEq, Eq, Structural)]
pub struct PaletteStats {
    pub reused_or_allocated: u32,
    pub fell_back_to_raw: u32,
}

/// What to do next for a tile.
#[derive(Debug)]
pub enum PaletteStep {
    /// The tile is not sent with a palette.
    NotPalette,
    /// It cannot be sent with one; it will be sent raw.
    FellBack,
    /// The table is to be asked for this palette.
    Ask(PaletteEntry),
}

/// A tile that is ready to be encoded with a palette.
#[derive(Debug)]
pub struct PalRleTileWorkPrep {
    pub tile_xy: (u32, u32),
    pub indices: Vec<u8>,
    pub palette: PaletteEntry,
    pub palette_id: u8,
    /// The payload is to carry the palette.
    pub bundled: bool,
}

/// One more, staying at the largest number.
pub open spec fn one_more(n: u32) -> u32 {
    if n == u32::MAX {
        n
    } else {
        (n + 1) as u32
    }
}

/// The palette of the frame that a tile's palette was folded into.
pub open spec fn effective(folded_into: Seq<u32>, local_id: u8) -> int {
    (folded_into[local_id as int] % 256) as int
}

/// The tables have what the tile's palette number needs.
pub open spec fn tables_cover(
    local_id: u8,
    folded_into: Seq<u32>,
    set: Seq<FramePaletteEntry>,
) -> bool {
    &&& local_id < folded_into.len()
    &&& effective(folded_into, local_id) < set.len()
    &&& set[effective(folded_into, local_id)].count % 256
        <= set[effective(folded_into, local_id)].colors@.len()
}

/// Reads a palette.
fn read_palette(raw: &FramePaletteEntry) -> (p: PaletteEntry)
    requires
        raw.count % 256 <= raw.colors@.len(),
    ensures
        p.colors@ == colors_of(raw.count, raw.colors@),
{
    let n: usize = (raw.count % 256) as usize;
    let mut colors: Vec<Color> = Vec::new();
    let mut i: usize = 0;
    while i < n
        invariant
            i <= n,
            n == raw.count % 256,
            n <= raw.colors@.len(),
            colors@ == Seq::new(i as nat, |k: int| color_of(raw.colors@[k])),
        decreases n - i,
    {
        let v: u32 = raw.colors[i];
        colors.push(
            Color {
                b: (v % 256) as u8,
                g: (v / 256 % 256) as u8,
                r: (v / 65536 % 256) as u8,
                a: (v / 16777216) as u8,
            },
        );
        i = i + 1;
        assert(colors@ =~= Seq::new(i as nat, |k: int| color_of(raw.colors@[k])));
    }
    PaletteEntry { colors }
}

/// The palette indices of the tile in place `c` of a list.
pub fn tile_indices(index_buffer: &[u8], c: usize) -> (out: Vec<u8>)
    requires
        (c + 1) * TILE_INDEX_BYTES <= index_buffer@.len(),
    ensures
        out@ == index_buffer@.subrange(c * TILE_INDEX_BYTES, (c + 1) * TILE_INDEX_BYTES),
{
    assert(index_buffer.len() == index_buffer@.len());
    copy_range(index_buffer, c * TILE_INDEX_BYTES, (c + 1) * TILE_INDEX_BYTES)
}

/// The tile states with the codec state of one tile changed.
pub open spec fn with_codec_state(
    s: Seq<TileState>,
    at: int,
    codec_state: CodecState,
) -> Seq<TileState> {
    s.update(at, TileState { codec_state, ..s[at] })
}

impl Emission {
    /// Only tile states and palette delivery can differ.
    pub open spec fn same_but_tiles(&self, before: Emission) -> bool {
        &&& self.same_rules(before)
        &&& self.scheduler == before.scheduler
        &&& self.coverage == before.coverage
    }

    fn set_codec_state(&mut self, tile_x: u32, tile_y: u32, codec_state: CodecState)
        requires
            old(self).wf(),
            old(self).tiles.on_grid(tile_x, tile_y),
        ensures
            final(self).wf(),
            final(self).same_but_tiles(*old(self)),
            final(self).palettes == old(self).palettes,
            final(self).tiles.tiles@ == with_codec_state(
                old(self).tiles.tiles@,
                tiles::place(old(self).tiles.cols, tile_x, tile_y),
                codec_state,
            ),
    {
        let mut t = self.tiles.get(tile_x, tile_y);
        t.codec_state = codec_state;
        self.tiles.set(tile_x, tile_y, t);
    }

    /// Says what to ask the table of palettes for on behalf of the tile with
    /// this index: nothing unless the tile was classified for palettes, and
    /// nothing if the palettes of the frame overflowed.
    pub fn palette_request(
        &mut self,
        cols: u32,
        tile_idx: u32,
        local_id: u8,
        folded_into: &[u32],
        frame_palette_set: &[FramePaletteEntry],
        stats: &mut PaletteStats,
    ) -> (step: PaletteStep)
        requires
            old(self).wf(),
            cols > 0,
            old(self).tiles.on_grid(tile_idx % cols, tile_idx / cols),
            old(self).tiles.at(tile_idx % cols, tile_idx / cols).codec_state is PalRle && local_id
                != PALETTE_OVERFLOW ==> tables_cover(local_id, folded_into@, frame_palette_set@),
        ensures
            final(self).wf(),
            final(self).same_but_tiles(*old(self)),
            final(self).palettes == old(self).palettes,
            ({
                let at = tiles::place(old(self).tiles.cols, tile_idx % cols, tile_idx / cols);
                if !(old(self).tiles.tiles@[at].codec_state is PalRle) {
                    &&& step is NotPalette
                    &&& final(self).tiles.tiles@ == old(self).tiles.tiles@
                    &&& *final(stats) == *old(stats)
                } else if local_id == PALETTE_OVERFLOW {
                    &&& step is FellBack
                    &&& final(self).tiles.tiles@ == with_codec_state(
                        old(self).tiles.tiles@,
                        at,
                        CodecState::Skip,
                    )
                    &&& *final(stats) == (PaletteStats {
                        fell_back_to_raw: one_more(old(stats).fell_back_to_raw),
                        ..*old(stats)
                    })
                } else {
                    let raw = frame_palette_set@[effective(folded_into@, local_id)];
                    &&& step matches PaletteStep::Ask(p) && p.colors@ == colors_of(
                        raw.count,
                        raw.colors@,
                    )
                    &&& final(self).tiles.tiles@ == old(self).tiles.tiles@
                    &&& *final(stats) == *old(stats)
                }
            }),
    {
        let x: u32 = tile_idx % cols;
        let y: u32 = tile_idx / cols;
        match self.tiles.get(x, y).codec_state {
            CodecState::PalRle { .. } => {},
            _ => {
                return PaletteStep::NotPalette;
            },
        }
        if local_id == PALETTE_OVERFLOW {
            self.set_codec_state(x, y, CodecState::Skip);
            stats.fell_back_to_raw = stats.fell_back_to_raw.saturating_add(1);
            return PaletteStep::FellBack;
        }
        let e: usize = (folded_into[local_id as usize] % 256) as usize;
        PaletteStep::Ask(read_palette(&frame_palette_set[e]))
    }

    /// Takes the answer of the table of palettes: the number of the palette,
    /// or none if there is no room.  The payload is to carry the palette
    /// unless the client has it.
    pub fn palette_answer(
        &mut self,
        cols: u32,
        tile_idx: u32,
        palette: PaletteEntry,
        indices: Vec<u8>,
        answer: Option<u8>,
        stats: &mut PaletteStats,
    ) -> (prep: Option<PalRleTileWorkPrep>)
        requires
            old(self).wf(),
            cols > 0,
            old(self).tiles.on_grid(tile_idx % cols, tile_idx / cols),
        ensures
            final(self).wf(),
            final(self).same_but_tiles(*old(self)),
            ({
                let at = tiles::place(old(self).tiles.cols, tile_idx % cols, tile_idx / cols);
                match answer {
                    Some(id) => {
                        let bundled = !old(self).palettes@.delivered[id as int];
                        &&& prep == Some(
                            PalRleTileWorkPrep {
                                tile_xy: ((tile_idx % cols) as u32, (tile_idx / cols) as u32),
                                indices,
                                palette,
                                palette_id: id,
                                bundled,
                            },
                        )
                        &&& final(self).palettes@ == (if bundled {
                            old(self).palettes@.sent(id)
                        } else {
                            old(self).palettes@
                        })
                        &&& final(self).tiles.tiles@ == with_codec_state(
                            old(self).tiles.tiles@,
                            at,
                            CodecState::PalRle { palette_id: id },
                        )
                        &&& *final(stats) == (PaletteStats {
                            reused_or_allocated: one_more(old(stats).reused_or_allocated),
                            ..*old(stats)
                        })
                    },
                    None => {
                        &&& prep is None
                        &&& final(self).palettes@ == old(self).palettes@
                        &&& final(self).tiles.tiles@ == with_codec_state(
                            old(self).tiles.tiles@,
                            at,
                            CodecState::Skip,
                        )
                        &&& *final(stats) == (PaletteStats {
                            fell_back_to_raw: one_more(old(stats).fell_back_to_raw),
                            ..*old(stats)
                        })
                    },
                }
            }),
    {
        let x: u32 = tile_idx % cols;
        let y: u32 = tile_idx / cols;
        match answer {
            Some(id) => {
                let bundled: bool = !self.palettes.is_delivered(id);
                if bundled {
                    self.palettes.on_sent(id);
                }
                self.set_codec_state(x, y, CodecState::PalRle { palette_id: id });
                stats.reused_or_allocated = stats.reused_or_allocated.saturating_add(1);
                Some(
                    PalRleTileWorkPrep {
                        tile_xy: (x, y),
                        indices,
                        palette,
                        palette_id: id,
                        bundled,
                    },
                )
            },
            None => {
                self.set_codec_state(x, y, CodecState::Skip);
                stats.fell_back_to_raw = stats.fell_back_to_raw.saturating_add(1);
                None
            },
        }
    }

    /// Queues the passes of a tile for refinement, in a new generation.
    /// `escalated` says that the tile is refined because it is idle.
    pub fn enqueue_cdf53(
        &mut self,
        cols: u32,
        tile_idx: u32,
        passes: Vec<Vec<u8>>,
        escalated: bool,
        now: Instant,
    )
        requires
            old(self).wf(),
            cols > 0,
            old(self).tiles.on_grid(
                (tile_idx % cols % 256) as u32,
                (tile_idx / cols % 256) as u32,
            ),
            (tile_idx % cols % 256) < old(self).scheduler@.cols,
            (tile_idx / cols % 256) < old(self).scheduler@.rows,
        ensures
            final(self).wf(),
            final(self).same_rules(*old(self)),
            final(self).state(Seq::empty()) == old(self).state(Seq::empty()).refining(
                (tile_idx % cols % 256) as u8,
                (tile_idx / cols % 256) as u8,
                old(self).tiles.cols,
                full_frame::contents(passes@),
                escalated,
                now,
            ),
    {
        let x: u8 = (tile_idx % cols % 256) as u8;
        let y: u8 = (tile_idx / cols % 256) as u8;
        let ghost before = self.state(Seq::empty());
        let ghost bytes = full_frame::contents(passes@);
        proof {
            tiles::place_is_inside(
                self.scheduler@.cols,
                self.scheduler@.rows,
                x as u32,
                y as u32,
            );
        }
        let generation: u8 = self.scheduler.bump_generation(x, y);
        assert(self.scheduler@ =~= before.sched.bumped(x, y));
        self.coverage.drop_cdf53_for_tile(x, y);
        self.scheduler.enqueue_refinement(x, y, generation, passes, now);
        assert(self.scheduler@ =~= before.sched.bumped(x, y).refined(
            x,
            y,
            generation,
            bytes,
            now,
        ));
        let mut t = self.tiles.get(x as u32, y as u32);
        t.codec_state = CodecState::Cdf53 { passes_sent: 0, max_passes: CDF53_PASS_COUNT };
        t.already_escalated = escalated;
        self.tiles.set(x as u32, y as u32, t);
        assert(self.state(Seq::empty()) =~= before.refining(
            x,
            y,
            self.tiles.cols,
            bytes,
            escalated,
            now,
        ));
    }
}

impl EmitState {
    /// The passes of a tile are queued for refinement in a new generation.
    pub open spec fn refining(
        self,
        tile_x: u8,
        tile_y: u8,
        cols: u32,
        passes: Seq<Seq<u8>>,
        escalated: bool,
        now: Instant,
    ) -> EmitState {
        let at = tiles::place(cols, tile_x as u32, tile_y as u32);
        EmitState {
            sched: self.sched.bumped(tile_x, tile_y).refined(
                tile_x,
                tile_y,
                self.sched.next_gen(tile_x, tile_y),
                passes,
                now,
            ),
            tiles: self.tiles.update(
                at,
                TileState {
                    codec_state: CodecState::Cdf53 {
                        passes_sent: 0,
                        max_passes: CDF53_PASS_COUNT,
                    },
                    already_escalated: escalated,
                    ..self.tiles[at]
                },
            ),
            coverage: self.coverage.without_refinement(tile_x, tile_y),
            ..self
        }
    }
}

/// How the payload of a palette tile is written.
#[derive(Debug, Clone, Copy, PartialEq, Eq, Structural)]
pub enum PayloadForm {
    /// Indices as they are.
    IndicesRaw,
    /// Run lengths, with the palette in front if it is to be carried.
    RunLength,
}

/// The form of a palette payload: indices as they are only without a palette,
/// and only for a client that reads them.
pub fn payload_form(bundled: bool, caps: &ClientCapabilities) -> (f: PayloadForm)
    ensures
        f == (if !bundled && caps.indices_raw_enabled {
            PayloadForm::IndicesRaw
        } else {
            PayloadForm::RunLength
        }),
{
    if !bundled && caps.indices_raw_enabled {
        PayloadForm::IndicesRaw
    } else {
        PayloadForm::RunLength
    }
}

/// A payload with a palette of one colour whose runs cover the tile with the
/// third: it passes every check but that of the index.
pub open spec fn spoiled_payload() -> Seq<u8> {
    seq![0x01u8, 0x00, 0x01, 0x00, 0x00, 0xFF, 0xFF] + Seq::new(64, |i: int| 0x2Fu8)
}

/// The payload of a palette tile: what was encoded, or a spoiled payload for
/// the tile that a test wants spoiled.
pub fn choose_payload(
    tile_xy: (u32, u32),
    inject_at: Option<(u32, u32)>,
    encoded: Vec<u8>,
) -> (out: Vec<u8>)
    ensures
        out@ == (if inject_at == Some(tile_xy) {
            spoiled_payload()
        } else {
            encoded@
        }),
{
    let hit: bool = match inject_at {
        Some(at) => at.0 == tile_xy.0 && at.1 == tile_xy.1,
        None => false,
    };
    if !hit {
        return encoded;
    }
    let mut out: Vec<u8> = vec![0x01, 0x00, 0x01, 0x00, 0x00, 0xFF, 0xFF];
    let mut i: usize = 0;
    let ghost head = out@;
    assert(out@ =~= head + Seq::new(0, |k: int| 0x2Fu8));
    while i < 64
        invariant
            i <= 64,
            out@ == head + Seq::new(i as nat, |k: int| 0x2Fu8),
        decreases 64 - i,
    {
        out.push(0x2F);
        i = i + 1;
        assert(out@ =~= head + Seq::new(i as nat, |k: int| 0x2Fu8));
    }
    assert(out@ =~= spoiled_payload());
    out
}

/// What is left of the wish to spoil a tile once these tiles were prepared: it
/// is fulfilled only if its tile is among them.
pub fn injection_after(inject_at: Option<(u32, u32)>, preps: &[PalRleTileWorkPrep]) -> (left: Option<
    (u32, u32),
>)
    ensures
        left == (match inject_at {
            Some(at) => if exists|i: int|
                0 <= i < preps@.len() && (#[trigger] preps@[i]).tile_xy == at {
                None
            } else {
                inject_at
            },
            None => None,
        }),
{
    let at: (u32, u32) = match inject_at {
        Some(at) => at,
        None => {
            return None;
        },
    };
    let n: usize = preps.len();
    let mut i: usize = 0;
    while i < n
        invariant
            i <= n,
            n == preps@.len(),
            inject_at == Some(at),
            forall|k: int| 0 <= k < i ==> (#[trigger] preps@[k]).tile_xy != at,
        decreases n - i,
    {
        if preps[i].tile_xy.0 == at.0 && preps[i].tile_xy.1 == at.1 {
            assert(preps@[i as int].tile_xy == at);
            return None;
        }
        i = i + 1;
    }
    inject_at
}

/// A palette travels until the client has it: the first payload with a palette
/// carries it, and one after its acknowledgement does not.
pub proof fn palette_travels_once(p: DeliveryView, id: u8)
    requires
        p.wf(),
    ensures
        p.acked(id).delivered[id as int],
        p.sent(id).delivered[id as int] == p.delivered[id as int],
        !p.rebundled(id).delivered[id as int],
{
}

} // verus!
