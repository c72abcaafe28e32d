//! Allocation of palettes for the tiles of a frame, tile by tile.
//!
//! The table of palettes is outside.  [`Emission::phase_a_palette_allocation`]
//! goes on to the next tile for which the table is to be asked, and
//! [`Emission::phase_a_answer`] takes its answer.
use crate::io_bridge::dispatch::Emission;
use crate::io_bridge::palettes::DeliveryView;
use crate::io_bridge::phases;
use crate::io_bridge::phases::{
    tile_indices, Color, FramePaletteEntry, PalRleTileWorkPrep, PaletteEntry, PaletteStats,
    PaletteStep, PALETTE_OVERFLOW, TILE_INDEX_BYTES,
};
use crate::io_bridge::tiles;
use crate::io_bridge::tiles::{CodecState, TileState};
use vstd::prelude::*;

verus! {

broadcast use vstd::slice::group_slice_axioms;

/// What the graphics processor wrote about the palette tiles of a frame.
#[derive(Debug, Clone, Copy)]
pub struct PaletteFrame<'a> {
    /// Columns of the grid that the tile numbers count in.
    pub cols: u32,
    /// Numbers of the tiles that a palette fits.
    pub compact_list: &'a [u32],
    /// The palette of each of them, within the frame.
    pub local_ids: &'a [u8],
    /// The palette that each palette of the frame was folded into.
    pub folded_into: &'a [u32],
    pub palette_set: &'a [FramePaletteEntry],
    /// The palette indices of each of the tiles.
    pub index_buffer: &'a [u8],
}

/// How far the allocation has come.
#[derive(Debug)]
pub struct PaletteRun {
    /// Place in the list of the tile that is next.
    pub next: usize,
    pub stats: PaletteStats,
    /// The tiles that are ready to be encoded.
    pub preps: Vec<PalRleTileWorkPrep>,
}

/// What a [`PalRleTileWorkPrep`] holds.
#[verifier::ext_equal]
pub struct PrepView {
    pub tile_xy: (u32, u32),
    pub indices: Seq<u8>,
    pub colors: Seq<Color>,
    pub palette_id: u8,
    pub bundled: bool,
}

impl View for PalRleTileWorkPrep {
    type V = PrepView;

    open spec fn view(&self) -> PrepView {
        PrepView {
            tile_xy: self.tile_xy,
            indices: self.indices@,
            colors: self.palette.colors@,
            palette_id: self.palette_id,
            bundled: self.bundled,
        }
    }
}

pub open spec fn prep_views(preps: Seq<PalRleTileWorkPrep>) -> Seq<PrepView> {
    preps.map_values(|p: PalRleTileWorkPrep| p@)
}

/// An allocation with the tile states and the palettes that it works on.
#[verifier::ext_equal]
pub struct RunView {
    pub tiles: Seq<TileState>,
    pub palettes: DeliveryView,
    pub next: int,
    pub stats: PaletteStats,
    pub preps: Seq<PrepView>,
}

/// The place among the tile states of the tile in place `c` of the list.
pub open spec fn tile_place(f: PaletteFrame, grid_cols: u32, c: int) -> int {
    tiles::place(
        grid_cols,
        (f.compact_list@[c] % f.cols) as u32,
        (f.compact_list@[c] / f.cols) as u32,
    )
}

/// The colours of the palette of the tile in place `c` of the list.
pub open spec fn wanted_colors(f: PaletteFrame, c: int) -> Seq<Color> {
    let raw = f.palette_set@[phases::effective(f.folded_into@, f.local_ids@[c])];
    phases::colors_of(raw.count, raw.colors@)
}

impl RunView {
    /// The tile in place `c` of the list was classified for palettes.
    pub open spec fn wants(self, f: PaletteFrame, grid_cols: u32, c: int) -> bool {
        self.tiles[tile_place(f, grid_cols, c)].codec_state is PalRle
    }

    /// The tables have what the tiles from here on need.
    pub open spec fn is_covered(self, f: PaletteFrame, grid_cols: u32) -> bool {
        forall|c: int|
            self.next <= c < f.compact_list@.len() && #[trigger] self.wants(f, grid_cols, c) ==> {
                &&& c < f.local_ids@.len()
                &&& f.local_ids@[c] != PALETTE_OVERFLOW ==> {
                    &&& phases::tables_cover(f.local_ids@[c], f.folded_into@, f.palette_set@)
                    &&& (c + 1) * TILE_INDEX_BYTES <= f.index_buffer@.len()
                }
            }
    }

    /// The next tile is sent raw.
    pub open spec fn fell_back(self, f: PaletteFrame, grid_cols: u32) -> RunView {
        RunView {
            tiles: phases::with_codec_state(
                self.tiles,
                tile_place(f, grid_cols, self.next),
                CodecState::Skip,
            ),
            next: self.next + 1,
            stats: PaletteStats {
                fell_back_to_raw: phases::one_more(self.stats.fell_back_to_raw),
                ..self.stats
            },
            ..self
        }
    }

    /// The allocation at the next tile for which the table is to be asked:
    /// tiles of other codecs are passed over, and where the palettes of the
    /// frame overflowed the tile is sent raw.
    pub open spec fn at_request(self, f: PaletteFrame, grid_cols: u32) -> RunView
        decreases f.compact_list@.len() - self.next,
    {
        if self.next >= f.compact_list@.len() {
            self
        } else if !self.wants(f, grid_cols, self.next) {
            RunView { next: self.next + 1, ..self }.at_request(f, grid_cols)
        } else if f.local_ids@[self.next] == PALETTE_OVERFLOW {
            self.fell_back(f, grid_cols).at_request(f, grid_cols)
        } else {
            self
        }
    }

    /// The table answered for the next tile: the number of the palette, or
    /// none if there is no room.  The payload is to carry the palette unless
    /// the client has it.
    pub open spec fn answered(
        self,
        f: PaletteFrame,
        grid_cols: u32,
        colors: Seq<Color>,
        answer: Option<u8>,
    ) -> RunView {
        match answer {
            None => self.fell_back(f, grid_cols),
            Some(id) => {
                let bundled = !self.palettes.delivered[id as int];
                let index = f.compact_list@[self.next];
                RunView {
                    tiles: phases::with_codec_state(
                        self.tiles,
                        tile_place(f, grid_cols, self.next),
                        CodecState::PalRle { palette_id: id },
                    ),
                    palettes: if bundled {
                        self.palettes.sent(id)
                    } else {
                        self.palettes
                    },
                    next: self.next + 1,
                    stats: PaletteStats {
                        reused_or_allocated: phases::one_more(self.stats.reused_or_allocated),
                        ..self.stats
                    },
                    preps: self.preps.push(
                        PrepView {
                            tile_xy: ((index % f.cols) as u32, (index / f.cols) as u32),
                            indices: f.index_buffer@.subrange(
                                self.next * TILE_INDEX_BYTES,
                                (self.next + 1) * TILE_INDEX_BYTES,
                            ),
                            colors,
                            palette_id: id,
                            bundled,
                        },
                    ),
                }
            },
        }
    }
}

impl PaletteRun {
    /// Nothing is allocated yet.
    pub fn new() -> (run: Self)
        ensures
            run.next == 0,
            run.stats == (PaletteStats { reused_or_allocated: 0, fell_back_to_raw: 0 }),
            run.preps@.len() == 0,
    {
        PaletteRun {
            next: 0,
            stats: PaletteStats { reused_or_allocated: 0, fell_back_to_raw: 0 },
            preps: Vec::new(),
        }
    }
}

impl Emission {
    pub open spec fn run_view(&self, run: PaletteRun) -> RunView {
        RunView {
            tiles: self.tiles.tiles@,
            palettes: self.palettes@,
            next: run.next as int,
            stats: run.stats,
            preps: prep_views(run.preps@),
        }
    }

    /// The allocation can go on: its tiles are on the grid, and the tables
    /// have what they need.
    pub open spec fn can_run(&self, run: PaletteRun, f: PaletteFrame) -> bool {
        &&& self.wf()
        &&& f.cols > 0
        &&& run.next <= f.compact_list@.len()
        &&& forall|c: int|
            0 <= c < f.compact_list@.len() ==> self.tiles.on_grid(
                (#[trigger] f.compact_list@[c] % f.cols) as u32,
                (f.compact_list@[c] / f.cols) as u32,
            )
        &&& self.run_view(run).is_covered(f, self.tiles.cols)
    }

    /// Goes on to the next tile for which the table of palettes is to be asked.
    /// Gives the palette to ask for, or none once all tiles are done.
    pub fn phase_a_palette_allocation(&mut self, run: &mut PaletteRun, f: &PaletteFrame) -> (palette:
        Option<PaletteEntry>)
        requires
            old(self).can_run(*old(run), *f),
        ensures
            final(self).can_run(*final(run), *f),
            final(self).same_but_tiles(*old(self)),
            final(self).run_view(*final(run)) == old(self).run_view(*old(run)).at_request(
                *f,
                old(self).tiles.cols,
            ),
            match palette {
                Some(p) => final(run).next < f.compact_list@.len() && p.colors@ == wanted_colors(
                    *f,
                    final(run).next as int,
                ) && final(self).run_view(*final(run)).wants(
                    *f,
                    final(self).tiles.cols,
                    final(run).next as int,
                ) && f.local_ids@[final(run).next as int] != PALETTE_OVERFLOW,
                None => final(run).next == f.compact_list@.len(),
            },
    {
        let n: usize = f.compact_list.len();
        let ghost cols = self.tiles.cols;
        while run.next < n
            invariant
                n == f.compact_list@.len(),
                cols == old(self).tiles.cols,
                self.can_run(*run, *f),
                self.same_but_tiles(*old(self)),
                self.run_view(*run).at_request(*f, cols) == old(self).run_view(
                    *old(run),
                ).at_request(*f, cols),
            decreases n - run.next,
        {
            let c: usize = run.next;
            let ghost before = self.run_view(*run);
            let index: u32 = f.compact_list[c];
            proof {
                places_are_inside(*self, *f);
                assert(0 <= tile_place(*f, cols, c as int) < before.tiles.len());
                assert(before.wants(*f, cols, c as int) || !before.wants(*f, cols, c as int));
            }
            let wanted: bool = match self.tiles.get(index % f.cols, index / f.cols).codec_state {
                CodecState::PalRle { .. } => true,
                _ => false,
            };
            if !wanted {
                run.next = c + 1;
                assert(self.run_view(*run) =~= RunView { next: before.next + 1, ..before });
                proof {
                    still_covered(before, self.run_view(*run), *f, cols);
                }
            } else {
                let step = self.palette_request(
                    f.cols,
                    index,
                    f.local_ids[c],
                    f.folded_into,
                    f.palette_set,
                    &mut run.stats,
                );
                match step {
                    PaletteStep::Ask(p) => {
                        assert(self.run_view(*run) =~= before);
                        return Some(p);
                    },
                    _ => {
                        run.next = c + 1;
                        assert(self.run_view(*run) =~= before.fell_back(*f, cols));
                        proof {
                            still_covered(before, self.run_view(*run), *f, cols);
                        }
                    },
                }
            }
        }
        None
    }

    /// Takes the answer of the table of palettes for the tile that it was last
    /// asked for: the number of the palette, or none if there is no room.
    pub fn phase_a_answer(
        &mut self,
        run: &mut PaletteRun,
        f: &PaletteFrame,
        palette: PaletteEntry,
        answer: Option<u8>,
    )
        requires
            old(self).can_run(*old(run), *f),
            old(run).next < f.compact_list@.len(),
            old(self).run_view(*old(run)).wants(
                *f,
                old(self).tiles.cols,
                old(run).next as int,
            ),
            f.local_ids@[old(run).next as int] != PALETTE_OVERFLOW,
        ensures
            final(self).can_run(*final(run), *f),
            final(self).same_but_tiles(*old(self)),
            final(self).run_view(*final(run)) == old(self).run_view(*old(run)).answered(
                *f,
                old(self).tiles.cols,
                palette.colors@,
                answer,
            ),
    {
        let c: usize = run.next;
        let ghost cols = self.tiles.cols;
        let ghost before = self.run_view(*run);
        let index: u32 = f.compact_list[c];
        proof {
            assert(before.wants(*f, cols, c as int));
            places_are_inside(*self, *f);
            assert(0 <= tile_place(*f, cols, c as int) < before.tiles.len());
        }
        let indices = tile_indices(f.index_buffer, c);
        let ghost colors = palette.colors@;
        let prep = self.palette_answer(f.cols, index, palette, indices, answer, &mut run.stats);
        let ghost preps = run.preps@;
        if let Some(p) = prep {
            run.preps.push(p);
            assert(prep_views(run.preps@) =~= prep_views(preps).push(p@));
        }
        run.next = c + 1;
        proof {
            let after = before.answered(*f, cols, colors, answer);
            assert(self.run_view(*run) =~= after);
            still_covered(before, self.run_view(*run), *f, cols);
        }
    }
}

/// The tables stay sufficient while the allocation goes on, as a tile that was
/// not classified for palettes never becomes one.
proof fn still_covered(before: RunView, after: RunView, f: PaletteFrame, grid_cols: u32)
    requires
        before.is_covered(f, grid_cols),
        after.next == before.next + 1,
        0 <= before.next,
        after.tiles.len() == before.tiles.len(),
        forall|i: int|
            0 <= i < after.tiles.len() && (#[trigger] after.tiles[i]).codec_state is PalRle
                ==> before.tiles[i].codec_state is PalRle,
        forall|c: int|
            0 <= c < f.compact_list@.len() ==> 0 <= #[trigger] tile_place(f, grid_cols, c)
                < before.tiles.len(),
    ensures
        after.is_covered(f, grid_cols),
{
    assert forall|c: int|
        after.next <= c < f.compact_list@.len() && #[trigger] after.wants(f, grid_cols, c) implies {
        &&& c < f.local_ids@.len()
        &&& f.local_ids@[c] != PALETTE_OVERFLOW ==> {
            &&& phases::tables_cover(f.local_ids@[c], f.folded_into@, f.palette_set@)
            &&& (c + 1) * TILE_INDEX_BYTES <= f.index_buffer@.len()
        }
    } by {
        assert(0 <= tile_place(f, grid_cols, c) < before.tiles.len());
        assert(before.wants(f, grid_cols, c));
    }
}

/// The tiles of the list have their places among the tile states.
proof fn places_are_inside(e: Emission, f: PaletteFrame)
    requires
        e.wf(),
        forall|c: int|
            0 <= c < f.compact_list@.len() ==> e.tiles.on_grid(
                (#[trigger] f.compact_list@[c] % f.cols) as u32,
                (f.compact_list@[c] / f.cols) as u32,
            ),
    ensures
        forall|c: int|
            0 <= c < f.compact_list@.len() ==> 0 <= #[trigger] tile_place(f, e.tiles.cols, c)
                < e.tiles.tiles@.len(),
{
    assert forall|c: int| 0 <= c < f.compact_list@.len() implies 0 <= #[trigger] tile_place(
        f,
        e.tiles.cols,
        c,
    ) < e.tiles.tiles@.len() by {
        let index = f.compact_list@[c];
        tiles::place_is_inside(
            e.tiles.cols,
            e.tiles.rows,
            (index % f.cols) as u32,
            (index / f.cols) as u32,
        );
    }
}

/// Every tile that was classified for palettes is either prepared or counted
/// as sent raw: an answer adds to exactly one of the two.
pub proof fn answers_are_accounted_for(
    v: RunView,
    f: PaletteFrame,
    grid_cols: u32,
    colors: Seq<Color>,
    answer: Option<u8>,
)
    requires
        v.stats.fell_back_to_raw < u32::MAX,
    ensures
        ({
            let after = v.answered(f, grid_cols, colors, answer);
            &&& after.preps.len() + after.stats.fell_back_to_raw == v.preps.len()
                + v.stats.fell_back_to_raw + 1
            &&& after.preps.len() == v.preps.len() + 1 <==> answer is Some
        }),
{
}

/// The first payload with a palette that the client lacks carries it, and one
/// with a palette that the client has does not.
pub proof fn lacking_palettes_are_carried(
    v: RunView,
    f: PaletteFrame,
    grid_cols: u32,
    colors: Seq<Color>,
    id: u8,
)
    ensures
        v.answered(f, grid_cols, colors, Some(id)).preps.last().bundled
            == !v.palettes.delivered[id as int],
{
}

/// What an answer brings about for the tile at hand: with a palette the tile
/// is prepared with its own indices and colours and marked with that palette,
/// which goes along and counts as sent if it was not delivered; without one the
/// tile falls back to raw.
pub proof fn an_answer_prepares_its_tile(
    v: RunView,
    f: PaletteFrame,
    grid_cols: u32,
    colors: Seq<Color>,
    id: u8,
    i: int,
)
    requires
        f.cols > 0,
        0 <= v.next < f.compact_list@.len(),
        0 <= tile_place(f, grid_cols, v.next) < v.tiles.len(),
        v.palettes.wf(),
        v.palettes.in_flight[id as int] < u32::MAX,
        (v.next + 1) * 512 <= f.index_buffer@.len(),
        0 <= i < 512,
    ensures
        ({
            let a = v.answered(f, grid_cols, colors, Some(id));
            let p = a.preps.last();
            let tile = f.compact_list@[v.next];
            let at = (tile / f.cols) * grid_cols + tile % f.cols;
            &&& a.next == v.next + 1
            &&& a.preps.drop_last() == v.preps
            &&& p.tile_xy.1 * f.cols + p.tile_xy.0 == tile && p.tile_xy.0 < f.cols
            &&& p.palette_id == id && p.colors == colors
            &&& p.indices.len() == 512 && p.indices[i] == f.index_buffer@[512 * v.next + i]
            &&& p.bundled <==> !v.palettes.delivered[id as int]
            &&& a.palettes.delivered == v.palettes.delivered
            &&& p.bundled ==> a.palettes.in_flight[id as int] == v.palettes.in_flight[id as int] + 1
            &&& !p.bundled ==> a.palettes == v.palettes
            &&& a.tiles[at].codec_state == (CodecState::PalRle { palette_id: id })
            &&& forall|k: int|
                0 <= k < v.tiles.len() && k != at ==> #[trigger] a.tiles[k] == v.tiles[k]
        }),
        ({
            let a = v.answered(f, grid_cols, colors, None);
            let tile = f.compact_list@[v.next];
            let at = (tile / f.cols) * grid_cols + tile % f.cols;
            &&& a.next == v.next + 1
            &&& a.preps == v.preps && a.palettes == v.palettes
            &&& a.tiles[at].codec_state == CodecState::Skip
            &&& forall|k: int|
                0 <= k < v.tiles.len() && k != at ==> #[trigger] a.tiles[k] == v.tiles[k]
        }),
{
    let a = v.answered(f, grid_cols, colors, Some(id));
    let tile = f.compact_list@[v.next];
    assert(a.preps.drop_last() =~= v.preps);
    assert(tile == (tile / f.cols) * f.cols + tile % f.cols) by (nonlinear_arith)
        requires
            f.cols > 0,
    ;
}

/// The search for the next request passes over tiles that want no palette and
/// lets those without one of their own fall back; it stops at the first other.
pub proof fn the_search_stops_at_the_next_request(v: RunView, f: PaletteFrame, grid_cols: u32)
    requires
        0 <= v.next <= f.compact_list@.len(),
    ensures
        ({
            let a = v.at_request(f, grid_cols);
            &&& v.next <= a.next <= f.compact_list@.len()
            &&& a.preps == v.preps && a.palettes == v.palettes
            &&& a.stats.reused_or_allocated == v.stats.reused_or_allocated
            &&& a.next < f.compact_list@.len() ==> a.wants(f, grid_cols, a.next)
                && f.local_ids@[a.next] != 0xFF
            &&& v.next < f.compact_list@.len() && v.wants(f, grid_cols, v.next)
                && f.local_ids@[v.next] != 0xFF ==> a == v
        }),
    decreases f.compact_list@.len() - v.next,
{
    if v.next >= f.compact_list@.len() {
    } else if !v.wants(f, grid_cols, v.next) {
        the_search_stops_at_the_next_request(
            RunView { next: v.next + 1, ..v },
            f,
            grid_cols,
        );
    } else if f.local_ids@[v.next] == PALETTE_OVERFLOW {
        the_search_stops_at_the_next_request(v.fell_back(f, grid_cols), f, grid_cols);
    }
}

/// A tile without a palette of its own is treated as if none were given for it,
/// and one that wants none is passed over as it is.
pub proof fn tiles_without_a_palette_fall_back(
    v: RunView,
    f: PaletteFrame,
    grid_cols: u32,
    colors: Seq<Color>,
)
    requires
        0 <= v.next < f.compact_list@.len(),
    ensures
        v.tiles[tile_place(f, grid_cols, v.next)].codec_state is PalRle && f.local_ids@[v.next]
            == 0xFF ==> v.at_request(f, grid_cols) == v.answered(
            f,
            grid_cols,
            colors,
            None,
        ).at_request(f, grid_cols),
        v.tiles[tile_place(f, grid_cols, v.next)].codec_state !is PalRle ==> v.at_request(
            f,
            grid_cols,
        ) == (RunView { next: v.next + 1, ..v }).at_request(f, grid_cols),
        v.stats.fell_back_to_raw < u32::MAX ==> v.answered(
            f,
            grid_cols,
            colors,
            None,
        ).stats.fell_back_to_raw == v.stats.fell_back_to_raw + 1,
{
}

} // verus!
