//! What the bridge remembers of each tile.
use vstd::prelude::*;

verus! {

broadcast use vstd::slice::group_slice_axioms;

/// How a frame is emitted as a whole.
#[derive(Debug, Clone, Copy, PartialEq, Eq, Structural)]
pub enum FrameMode {
    /// As one video frame.
    H264,
    /// Tile by tile.
    TileCodec,
}

/// Which codec a tile was classified for.
#[derive(Debug, Clone, Copy, PartialEq, Eq, Structural)]
pub enum CodecState {
    Skip,
    Solid,
    PalRle { palette_id: u8 },
    /// Sent raw.
    Bc1,
    H264 { frames_in_h264: u32 },
    Cdf53 { passes_sent: u8, max_passes: u8 },
}

/// Cdf53 is kept only where both sides agree on it; else the tile is sent raw.
pub open spec fn gated(state: CodecState, enabled: bool, supported: bool) -> CodecState {
    if state is Cdf53 && !(enabled && supported) {
        CodecState::Bc1
    } else {
        state
    }
}

/// Computes `gated`: `enabled` on this side and `supported` by the client.
pub fn gate_codec_state(state: CodecState, enabled: bool, supported: bool) -> (r: CodecState)
    ensures
        r == gated(state, enabled, supported),
{
    match state {
        CodecState::Cdf53 { passes_sent, max_passes } => if enabled && supported {
            state
        } else {
            CodecState::Bc1
        },
        _ => state,
    }
}

/// What is remembered of one tile.
#[derive(Debug, Clone, Copy, PartialEq, Eq, Structural)]
pub struct TileState {
    pub codec_state: CodecState,
    /// Number of distinct colours; the largest number if it is not known.
    pub unique_colors: u16,
    /// Edge density in thousandths.
    pub edge_density_thou: u32,
    /// Whether the tile was refined while idle in its present generation.
    pub already_escalated: bool,
}

/// A tile of which nothing is known.
pub open spec fn blank_tile() -> TileState {
    TileState {
        codec_state: CodecState::Skip,
        unique_colors: u16::MAX,
        edge_density_thou: 0,
        already_escalated: false,
    }
}

fn blank() -> (t: TileState)
    ensures
        t == blank_tile(),
{
    TileState {
        codec_state: CodecState::Skip,
        unique_colors: u16::MAX,
        edge_density_thou: 0,
        already_escalated: false,
    }
}

/// The state of every tile of the grid, row by row.
#[derive(Debug)]
pub struct TileTable {
    pub cols: u32,
    pub rows: u32,
    pub tiles: Vec<TileState>,
}

/// Where a tile stands in a grid of so many columns.
pub open spec fn place(cols: u32, tile_x: u32, tile_y: u32) -> int {
    tile_y * cols + tile_x
}

/// A tile on the grid has its place in it.
pub proof fn place_is_inside(cols: u32, rows: u32, tile_x: u32, tile_y: u32)
    requires
        tile_x < cols,
        tile_y < rows,
    ensures
        0 <= place(cols, tile_x, tile_y) < cols * rows,
{
    assert(tile_y * cols + cols <= rows * cols) by (nonlinear_arith)
        requires
            tile_y + 1 <= rows,
    ;
    assert(tile_y * cols >= 0) by (nonlinear_arith);
    assert(rows * cols == cols * rows) by (nonlinear_arith);
}

/// Distinct tiles of a grid have distinct places.
pub proof fn places_differ(cols: u32, x1: u32, y1: u32, x2: u32, y2: u32)
    requires
        x1 < cols,
        x2 < cols,
        place(cols, x1, y1) == place(cols, x2, y2),
    ensures
        x1 == x2,
        y1 == y2,
{
    assert(y1 == y2) by (nonlinear_arith)
        requires
            x1 < cols,
            x2 < cols,
            y1 * cols + x1 == y2 * cols + x2,
    ;
}

impl TileTable {
    pub open spec fn wf(&self) -> bool {
        self.tiles@.len() == self.cols * self.rows
    }

    pub open spec fn on_grid(&self, tile_x: u32, tile_y: u32) -> bool {
        tile_x < self.cols && tile_y < self.rows
    }

    pub open spec fn at(&self, tile_x: u32, tile_y: u32) -> TileState {
        self.tiles@[place(self.cols, tile_x, tile_y)]
    }

    /// A table of blank tiles; the grid fits in memory.
    pub fn new(cols: u32, rows: u32) -> (t: Self)
        requires
            cols * rows <= usize::MAX,
        ensures
            t.wf(),
            t.cols == cols,
            t.rows == rows,
            forall|i: int| 0 <= i < t.tiles@.len() ==> t.tiles@[i] == blank_tile(),
    {
        let n: usize = grid_size(cols, rows);
        TileTable { cols, rows, tiles: blanks(n) }
    }

    /// A blank table for another grid.
    pub fn resize(&mut self, cols: u32, rows: u32)
        requires
            cols * rows <= usize::MAX,
        ensures
            final(self).wf(),
            final(self).cols == cols,
            final(self).rows == rows,
            forall|i: int|
                0 <= i < final(self).tiles@.len() ==> final(self).tiles@[i] == blank_tile(),
    {
        let n: usize = grid_size(cols, rows);
        self.cols = cols;
        self.rows = rows;
        self.tiles = blanks(n);
    }

    /// Forgets everything but the grid.
    pub fn reset(&mut self)
        requires
            old(self).wf(),
        ensures
            final(self).wf(),
            final(self).cols == old(self).cols,
            final(self).rows == old(self).rows,
            forall|i: int|
                0 <= i < final(self).tiles@.len() ==> final(self).tiles@[i] == blank_tile(),
    {
        let n: usize = self.tiles.len();
        self.tiles = blanks(n);
    }

    /// The state of a tile.
    pub fn get(&self, tile_x: u32, tile_y: u32) -> (t: TileState)
        requires
            self.wf(),
            self.on_grid(tile_x, tile_y),
        ensures
            t == self.at(tile_x, tile_y),
    {
        let i: usize = self.index(tile_x, tile_y);
        self.tiles[i]
    }

    /// Sets the state of a tile.
    pub fn set(&mut self, tile_x: u32, tile_y: u32, t: TileState)
        requires
            old(self).wf(),
            old(self).on_grid(tile_x, tile_y),
        ensures
            final(self).wf(),
            final(self).cols == old(self).cols,
            final(self).rows == old(self).rows,
            final(self).tiles@ == old(self).tiles@.update(
                place(old(self).cols, tile_x, tile_y),
                t,
            ),
    {
        let i: usize = self.index(tile_x, tile_y);
        self.tiles.set(i, t);
    }

    fn index(&self, tile_x: u32, tile_y: u32) -> (i: usize)
        requires
            self.wf(),
            self.on_grid(tile_x, tile_y),
        ensures
            i == place(self.cols, tile_x, tile_y),
            i < self.tiles@.len(),
    {
        proof {
            place_is_inside(self.cols, self.rows, tile_x, tile_y);
            assert(self.tiles.len() == self.tiles@.len());
            assert(tile_y * self.cols >= 0) by (nonlinear_arith);
        }
        tile_y as usize * self.cols as usize + tile_x as usize
    }
}

/// The number of tiles of a grid.
fn grid_size(cols: u32, rows: u32) -> (n: usize)
    requires
        cols * rows <= usize::MAX,
    ensures
        n == cols * rows,
{
    cols as usize * rows as usize
}

fn blanks(n: usize) -> (v: Vec<TileState>)
    ensures
        v@.len() == n,
        forall|i: int| 0 <= i < n ==> v@[i] == blank_tile(),
{
    let mut v: Vec<TileState> = Vec::new();
    let mut i: usize = 0;
    while i < n
        invariant
            i <= n,
            v@.len() == i,
            forall|j: int| 0 <= j < i ==> v@[j] == blank_tile(),
        decreases n - i,
    {
        v.push(blank());
        i = i + 1;
    }
    v
}

/// What the graphics processor found out about a tile.
#[derive(Debug, Clone, Copy, PartialEq, Eq, Structural)]
pub struct TileAnalysis {
    /// Number of distinct colours.
    pub count: u32,
    /// Edge density in thousandths.
    pub edge_density_thou: u32,
}

/// The tile with what was found out about it.
pub open spec fn with_analysis(t: TileState, a: TileAnalysis) -> TileState {
    TileState {
        unique_colors: (if a.count <= u16::MAX {
            a.count as u16
        } else {
            u16::MAX
        }),
        edge_density_thou: a.edge_density_thou,
        ..t
    }
}

/// The tiles after the dirty ones took over what was found out about them;
/// what lies behind the end of the analysis stays as it is.
pub open spec fn populated(
    tiles: Seq<TileState>,
    grid_cols: u32,
    dirty: Seq<(u32, u32)>,
    cols: u32,
    analysis: Seq<TileAnalysis>,
) -> Seq<TileState>
    decreases dirty.len(),
{
    if dirty.len() == 0 {
        tiles
    } else {
        let before = populated(tiles, grid_cols, dirty.drop_last(), cols, analysis);
        let (x, y) = dirty.last();
        let from = place(cols, x, y);
        let to = place(grid_cols, x, y);
        if from < analysis.len() {
            before.update(to, with_analysis(before[to], analysis[from]))
        } else {
            before
        }
    }
}

/// Writes what the graphics processor found out into the dirty tiles, which
/// are all on the grid.  Other tiles are left alone.
pub fn populate_gpu_metrics(
    tracker: &mut TileTable,
    dirty: &[(u32, u32)],
    cols: u32,
    tile_analysis: &[TileAnalysis],
)
    requires
        old(tracker).wf(),
        forall|i: int|
            0 <= i < dirty@.len() ==> old(tracker).on_grid(
                (#[trigger] dirty@[i]).0,
                dirty@[i].1,
            ),
    ensures
        final(tracker).wf(),
        final(tracker).cols == old(tracker).cols,
        final(tracker).rows == old(tracker).rows,
        final(tracker).tiles@ == populated(
            old(tracker).tiles@,
            old(tracker).cols,
            dirty@,
            cols,
            tile_analysis@,
        ),
{
    let n: usize = dirty.len();
    let mut i: usize = 0;
    assert(dirty@.take(0) =~= Seq::empty());
    while i < n
        invariant
            i <= n,
            n == dirty@.len(),
            tracker.wf(),
            tracker.cols == old(tracker).cols,
            tracker.rows == old(tracker).rows,
            forall|k: int|
                0 <= k < dirty@.len() ==> old(tracker).on_grid(
                    (#[trigger] dirty@[k]).0,
                    dirty@[k].1,
                ),
            tracker.tiles@ == populated(
                old(tracker).tiles@,
                old(tracker).cols,
                dirty@.take(i as int),
                cols,
                tile_analysis@,
            ),
        decreases n - i,
    {
        let x: u32 = dirty[i].0;
        let y: u32 = dirty[i].1;
        proof {
            assert(old(tracker).on_grid(dirty@[i as int].0, dirty@[i as int].1));
            assert(dirty@.take(i + 1).drop_last() =~= dirty@.take(i as int));
            assert(dirty@.take(i + 1).last() == dirty@[i as int]);
            assert(0 <= y * cols <= 0xFFFF_FFFF * 0xFFFF_FFFF) by (nonlinear_arith)
                requires
                    y <= 0xFFFF_FFFF,
                    cols <= 0xFFFF_FFFF,
            ;
        }
        let at: u64 = y as u64 * cols as u64 + x as u64;
        if at < tile_analysis.len() as u64 {
            let entry = tile_analysis[at as usize];
            let mut t = tracker.get(x, y);
            t.unique_colors = if entry.count <= 65535 {
                entry.count as u16
            } else {
                65535
            };
            t.edge_density_thou = entry.edge_density_thou;
            tracker.set(x, y, t);
        }
        i = i + 1;
    }
    assert(dirty@.take(n as int) =~= dirty@);
}

/// A tile that is not dirty keeps what is remembered of it.
pub proof fn clean_tiles_are_untouched(
    table: TileTable,
    dirty: Seq<(u32, u32)>,
    cols: u32,
    analysis: Seq<TileAnalysis>,
    x: u32,
    y: u32,
)
    requires
        table.wf(),
        table.on_grid(x, y),
        forall|i: int|
            0 <= i < dirty.len() ==> table.on_grid((#[trigger] dirty[i]).0, dirty[i].1) && dirty[i]
                != (x, y),
    ensures
        populated(table.tiles@, table.cols, dirty, cols, analysis).len() == table.tiles@.len(),
        populated(table.tiles@, table.cols, dirty, cols, analysis)[place(table.cols, x, y)]
            == table.at(x, y),
    decreases dirty.len(),
{
    place_is_inside(table.cols, table.rows, x, y);
    if dirty.len() > 0 {
        let init = dirty.drop_last();
        assert forall|i: int| 0 <= i < init.len() implies table.on_grid(
            (#[trigger] init[i]).0,
            init[i].1,
        ) && init[i] != (x, y) by {
            assert(init[i] == dirty[i]);
        }
        clean_tiles_are_untouched(table, init, cols, analysis, x, y);
        let (dx, dy) = dirty.last();
        assert(dirty[dirty.len() - 1] == (dx, dy));
        place_is_inside(table.cols, table.rows, dx, dy);
        if place(table.cols, dx, dy) == place(table.cols, x, y) {
            places_differ(table.cols, dx, dy, x, y);
        }
    }
}

} // verus!
