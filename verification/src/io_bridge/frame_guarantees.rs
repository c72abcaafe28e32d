//! What a frame, a session and the messages of a client bring about.
use crate::fec;
use crate::io_bridge::config;
use crate::io_bridge::config::DropKind;
use crate::io_bridge::dispatch::EmitState;
use crate::io_bridge::feedback::FeedbackState;
use crate::io_bridge::frames;
use crate::io_bridge::frames::{GpuEmission, IoBridge, PixelSource};
use crate::io_bridge::full_frame;
use crate::io_bridge::gpu;
use crate::io_bridge::gpu::Surroundings;
use crate::io_bridge::messages;
use crate::io_bridge::messages::FeedbackView;
use crate::io_bridge::phases;
use crate::io_bridge::session;
use crate::io_bridge::session::{DimensionsAnnouncer, GateView};
use crate::io_bridge::tiles;
use crate::io_bridge::tiles::{CodecState, FrameMode, TileState, TileTable};
use crate::protocol;
use crate::protocol::Codec;
use crate::scheduler::guarantees::voided;
use crate::scheduler::guarantees as sched_laws;
use crate::scheduler::work::WorkState;
use crate::time::Instant;
use vstd::prelude::*;

verus! {

// ---------------------------------------------------------------------------
// Sessions
// ---------------------------------------------------------------------------

/// Room in a datagram: two bytes go to the session number, 24 more to the
/// headers of a tile.
pub proof fn headers_take_their_room(size: usize)
    ensures
        size >= 2 ==> session::usable(size) + 2 == size,
        size < 2 ==> session::usable(size) == 0,
        size >= 26 ==> session::tile_payload(size) + 26 == size,
        size < 26 ==> session::tile_payload(size) == 0,
{
}

/// The size that counts is one of those reported, and there is none only if
/// none is reported; a size of zero is as good as none.
pub proof fn the_smallest_size_is_one_of_them(
    sizes: Seq<Option<usize>>,
    of: spec_fn(usize) -> nat,
)
    ensures
        session::smallest(sizes, of) is None <==> forall|i: int|
            0 <= i < sizes.len() ==> (#[trigger] sizes[i]) is None,
        session::smallest(sizes, of) is Some ==> exists|i: int|
            0 <= i < sizes.len() && (#[trigger] sizes[i]) is Some && of(sizes[i]->0)
                == session::smallest(sizes, of)->0,
        session::positive(Some(0)) is None,
        forall|n: nat| n > 0 ==> #[trigger] session::positive(Some(n)) == Some(n),
    decreases sizes.len(),
{
    if sizes.len() > 0 {
        let front = sizes.drop_last();
        the_smallest_size_is_one_of_them(front, of);
        let before = session::smallest(front, of);
        let last = sizes[sizes.len() - 1];
        if before is Some {
            let i = choose|i: int|
                0 <= i < front.len() && (#[trigger] front[i]) is Some && of(front[i]->0)
                    == before->0;
            assert(sizes[i] == front[i]);
        } else if last is None {
            assert forall|i: int| 0 <= i < sizes.len() implies (#[trigger] sizes[i]) is None by {
                if i < front.len() {
                    assert(front[i] is None);
                }
            }
        }
    }
}

/// A new picture size is announced eleven times, one that stays as often as
/// is left; each frame takes one off.
pub proof fn a_picture_size_is_announced(a: DimensionsAnnouncer, w: u32, h: u32)
    ensures
        a.last != Some((w, h)) ==> a.due(w, h) == 11,
        a.last == Some((w, h)) ==> a.due(w, h) == a.left,
        a.after(w, h).last == Some((w, h)),
        a.due(w, h) > 0 ==> a.after(w, h).left + 1 == a.due(w, h),
        a.due(w, h) == 0 ==> a.after(w, h).left == 0,
{
}

/// A session starts over when it connects, was not yet told so, and is not
/// the first one ever; being lost arms it again.
pub proof fn a_session_starts_over_once(g: GateView, handle: u64, other: u64)
    requires
        other != handle,
    ensures
        !g.fires(handle, false),
        g.after(handle, false) == g,
        !g.seen ==> !g.fires(handle, true),
        g.fires(handle, true) <==> g.seen && !g.fired.contains(handle),
        g.after(handle, true).seen,
        !g.after(handle, true).fires(handle, true),
        g.after(handle, true).fired.contains(other) == g.fired.contains(other),
        g.lost(handle).seen == g.seen,
        g.seen ==> g.lost(handle).fires(handle, true),
        g.lost(handle).fired.contains(other) == g.fired.contains(other),
{
}

/// What starting over means: full frames for a while, every tile blank, no
/// work waiting, no palette in flight, and none delivered unless that is to be
/// kept; generations, acknowledgements and numbering go on.
pub proof fn starting_over_forgets_what_was_under_way(before: IoBridge, after: IoBridge, i: int)
    requires
        frames::started_over(before, after),
        0 <= i < 256,
    ensures
        after.frame_mode == FrameMode::H264,
        after.force_dirty_frames == 20,
        after.dimensions.left == 10,
        after.dimensions.last == before.dimensions.last,
        after.emission.scheduler@.priority.len() == 0,
        after.emission.scheduler@.refinement.len() == 0,
        after.emission.scheduler@.gens == before.emission.scheduler@.gens,
        after.emission.scheduler@.acks == before.emission.scheduler@.acks,
        after.emission.scheduler@.delivery == before.emission.scheduler@.delivery,
        after.emission.scheduler@.rtt == before.emission.scheduler@.rtt,
        forall|k: int|
            0 <= k < after.emission.tiles.tiles@.len() ==> (
            #[trigger] after.emission.tiles.tiles@[k]).codec_state == CodecState::Skip
                && !after.emission.tiles.tiles@[k].already_escalated,
        after.emission.palettes@.in_flight[i] == 0,
        before.skip_palette_session_reset ==> after.emission.palettes@.delivered
            == before.emission.palettes@.delivered,
        !before.skip_palette_session_reset ==> !after.emission.palettes@.delivered[i],
        after.emission.coverage@ == before.emission.coverage@,
        after.frame_seq == before.frame_seq,
        after.fec_k == before.fec_k,
        after.client_caps == before.client_caps,
{
}

/// A frame's announcement is sent exactly while one is due, and decodes to the
/// size of the picture.
pub proof fn an_announcement_names_the_size(
    dg: Option<Vec<u8>>,
    before: DimensionsAnnouncer,
    seq: u32,
    timestamp_us: u32,
    width: u32,
    height: u32,
)
    requires
        frames::announced(dg, before, seq, timestamp_us, width, height),
    ensures
        dg is Some <==> before.last != Some((width, height)) || before.left > 0,
        dg is Some ==> ({
            let d = dg->0@;
            &&& d.len() == 32
            &&& d[24] * 0x100_0000 + d[25] * 0x1_0000 + d[26] * 256 + d[27] == width
            &&& d[28] * 0x100_0000 + d[29] * 0x1_0000 + d[30] * 256 + d[31] == height
        }),
{
    if dg is Some {
        let p = protocol::frame_dimensions_payload(width, height);
        let c = protocol::chunk(p, 8, 0);
        assert(c =~= p);
        let i = protocol::frame_dimensions_inputs(seq, timestamp_us);
        let head = i.datagram_header(0, protocol::chunk_count(p.len(), 8)).bytes()
            + i.tile_header(p.len()).bytes();
        assert(head.len() == 24);
        assert(dg->0@ =~= head + p);
    }
}

// ---------------------------------------------------------------------------
// Tiles of a frame
// ---------------------------------------------------------------------------

/// The tiles across a picture are as many as it takes to cover it, no more.
pub proof fn tiles_cover_the_picture(length: u32, tile_size: u32)
    requires
        tile_size > 0,
    ensures
        ({
            let n = frames::tiles_across(length, tile_size);
            &&& n * tile_size >= length
            &&& n > 0 ==> (n - 1) * tile_size < length
        }),
{
    let q = (length / tile_size) as int;
    let r = (length % tile_size) as int;
    let t = tile_size as int;
    assert(length == q * t + r && 0 <= r < t) by (nonlinear_arith)
        requires
            t > 0,
            t == tile_size,
            q == (length / tile_size) as int,
            r == (length % tile_size) as int,
    ;
    assert((q + 1) * t == q * t + t) by (nonlinear_arith);
    assert((q - 1) * t == q * t - t) by (nonlinear_arith);
}

/// Frames are numbered one after the other, and the number comes round.
pub proof fn frames_are_numbered_on(n: u32)
    ensures
        n < u32::MAX ==> frames::next_seq(n) == n + 1,
        n == u32::MAX ==> frames::next_seq(n) == 0,
{
}

/// An index names a tile row by row.
pub proof fn an_index_names_a_tile(index: u32, cols: u32)
    requires
        cols > 0,
    ensures
        gpu::coordinates(index, cols).0 < cols,
        gpu::coordinates(index, cols).1 * cols + gpu::coordinates(index, cols).0 == index,
{
    assert(index == (index / cols) * cols + index % cols) by (nonlinear_arith)
        requires
            cols > 0,
    ;
}

/// A classified tile has the last state it was given and keeps the rest; a
/// tile that was given none stays as it was.
pub proof fn a_classified_tile_has_its_state(
    s: Seq<TileState>,
    cols: u32,
    rows: u32,
    dirty: Seq<(u32, u32)>,
    states: Seq<CodecState>,
    x: u32,
    y: u32,
    i: int,
)
    requires
        s.len() == cols * rows,
        dirty.len() == states.len(),
        forall|k: int|
            0 <= k < dirty.len() ==> (#[trigger] dirty[k]).0 < cols && dirty[k].1 < rows,
        x < cols,
        y < rows,
        -1 <= i < dirty.len(),
        i >= 0 ==> dirty[i] == (x, y),
        forall|k: int| i < k < dirty.len() ==> #[trigger] dirty[k] != (x, y),
    ensures
        ({
            let a = frames::classified(s, cols, dirty, states);
            let at = y * cols + x;
            &&& a.len() == s.len()
            &&& i >= 0 ==> a[at].codec_state == states[i]
            &&& i == -1 ==> a[at].codec_state == s[at].codec_state
            &&& a[at].already_escalated == s[at].already_escalated
            &&& a[at].unique_colors == s[at].unique_colors
            &&& a[at].edge_density_thou == s[at].edge_density_thou
        }),
    decreases dirty.len(),
{
    tiles::place_is_inside(cols, rows, x, y);
    if dirty.len() > 0 {
        let front = dirty.drop_last();
        let n = dirty.len() - 1;
        let last = dirty[n];
        tiles::place_is_inside(cols, rows, last.0, last.1);
        assert forall|k: int| 0 <= k < front.len() implies (#[trigger] front[k]).0 < cols
            && front[k].1 < rows by {
            assert(front[k] == dirty[k]);
        }
        if i < n {
            assert(last != (x, y));
            if tiles::place(cols, last.0, last.1) == tiles::place(cols, x, y) {
                tiles::places_differ(cols, last.0, last.1, x, y);
            }
            assert forall|k: int| i < k < front.len() implies #[trigger] front[k] != (x, y) by {
                assert(front[k] == dirty[k]);
            }
            a_classified_tile_has_its_state(
                s,
                cols,
                rows,
                front,
                states.drop_last(),
                x,
                y,
                i,
            );
        } else {
            classified_keeps(s, cols, rows, front, states.drop_last(), x, y);
        }
    }
}

proof fn classified_keeps(
    s: Seq<TileState>,
    cols: u32,
    rows: u32,
    dirty: Seq<(u32, u32)>,
    states: Seq<CodecState>,
    x: u32,
    y: u32,
)
    requires
        s.len() == cols * rows,
        dirty.len() == states.len(),
        forall|k: int|
            0 <= k < dirty.len() ==> (#[trigger] dirty[k]).0 < cols && dirty[k].1 < rows,
        x < cols,
        y < rows,
    ensures
        ({
            let a = frames::classified(s, cols, dirty, states);
            let at = tiles::place(cols, x, y);
            &&& a.len() == s.len()
            &&& a[at].already_escalated == s[at].already_escalated
            &&& a[at].unique_colors == s[at].unique_colors
            &&& a[at].edge_density_thou == s[at].edge_density_thou
        }),
    decreases dirty.len(),
{
    tiles::place_is_inside(cols, rows, x, y);
    if dirty.len() > 0 {
        let front = dirty.drop_last();
        let last = dirty[dirty.len() - 1];
        tiles::place_is_inside(cols, rows, last.0, last.1);
        assert forall|k: int| 0 <= k < front.len() implies (#[trigger] front[k]).0 < cols
            && front[k].1 < rows by {
            assert(front[k] == dirty[k]);
        }
        classified_keeps(s, cols, rows, front, states.drop_last(), x, y);
    }
}

/// What is planned for a frame on the graphics card: a change of mode renews
/// what the new mode builds on, an encoder fits the picture, tiles leave room
/// for their headers, and nothing dirty sends nothing.
pub proof fn a_plan_fits_the_frame(
    prev: FrameMode,
    mode: FrameMode,
    nothing_dirty: bool,
    max: usize,
    around: Surroundings,
)
    ensures
        ({
            let p = gpu::plan(prev, mode, nothing_dirty, max, around);
            &&& p.invalidate_baseline <==> prev != mode && mode == FrameMode::TileCodec
            &&& p.request_keyframe <==> prev != mode && mode == FrameMode::H264
            &&& !p.init_encoder <==> around.encoder_size == Some((around.width, around.height))
            &&& around.has_pixels ==> p.pixels == PixelSource::Given
            &&& !around.has_pixels && around.has_dmabuf ==> p.pixels == PixelSource::Readback
            &&& !around.has_pixels && !around.has_dmabuf ==> p.pixels == PixelSource::Missing
            &&& nothing_dirty ==> p.emission == GpuEmission::Nothing
            &&& !nothing_dirty && mode == FrameMode::H264 ==> p.emission == (
            GpuEmission::FullFrame { max_dg_size: max })
            &&& !nothing_dirty && mode == FrameMode::TileCodec && max <= 24 ==> p.emission
                == GpuEmission::Nothing
            &&& !nothing_dirty && mode == FrameMode::TileCodec && max > 24 ==> (p.emission matches GpuEmission::Tiles {
                max_frag,
            } && max_frag + 24 == max)
        }),
{
}

/// Refining a tile voids its older work, moves its generation on and queues
/// the passes in that generation; the tile is marked as refined with all of
/// its passes still to come.
pub proof fn a_refined_tile_is_queued_anew(
    s: EmitState,
    x: u8,
    y: u8,
    cols: u32,
    passes: Seq<Seq<u8>>,
    escalated: bool,
    now: Instant,
)
    requires
        s.sched.gens.len() == s.sched.cols * s.sched.rows,
        x < s.sched.cols,
        y < s.sched.rows,
        s.sched.gens[y * s.sched.cols + x] < 16,
        0 <= y * cols + x < s.tiles.len(),
        passes.len() <= 255,
    ensures
        ({
            let a = s.refining(x, y, cols, passes, escalated, now);
            let n = s.sched.refinement.len() as int;
            let g = s.sched.gens[y * s.sched.cols + x];
            let at = y * cols + x;
            &&& voided(s.sched.priority, a.sched.priority, x, y)
            &&& a.sched.refinement.len() == n + passes.len()
            &&& voided(s.sched.refinement, a.sched.refinement.take(n), x, y)
            &&& a.sched.gens[y * s.sched.cols + x] == (if g == 15 {
                0
            } else {
                g + 1
            })
            &&& forall|i: int|
                0 <= i < passes.len() ==> {
                    let w = #[trigger] a.sched.refinement.skip(n)[i];
                    &&& w.payload == passes[i] && w.pass_idx == i && w.total_passes == passes.len()
                    &&& w.tile_x == x && w.tile_y == y && w.codec == Codec::Cdf53
                    &&& w.generation == a.sched.gens[y * s.sched.cols + x]
                    &&& w.state == WorkState::Pending
                }
            &&& a.tiles[at].codec_state == (CodecState::Cdf53 { passes_sent: 0, max_passes: 14 })
            &&& a.tiles[at].already_escalated == escalated
            &&& a.tiles[at].unique_colors == s.tiles[at].unique_colors
            &&& a.tiles[at].edge_density_thou == s.tiles[at].edge_density_thou
            &&& forall|i: int|
                0 <= i < s.tiles.len() && i != at ==> #[trigger] a.tiles[i] == s.tiles[i]
            &&& a.coverage == s.coverage.without_refinement(x, y)
            &&& a.palettes == s.palettes && a.released == s.released
        }),
{
    let b = s.sched.bumped(x, y);
    sched_laws::a_bump_touches_one_tile(s.sched, x, y);
    sched_laws::refinement_waits(b, x, y, s.sched.next_gen(x, y), passes, now);
    assert(0 <= y * s.sched.cols + x < s.sched.cols * s.sched.rows) by (nonlinear_arith)
        requires
            x < s.sched.cols,
            y < s.sched.rows,
    ;
}

/// Tiles are refined one after the other, each with its own passes.
pub proof fn tiles_are_refined_in_turn(
    s: EmitState,
    cols: u32,
    grid_cols: u32,
    a: Seq<u32>,
    pa: Seq<Seq<Seq<u8>>>,
    b: Seq<u32>,
    pb: Seq<Seq<Seq<u8>>>,
    index: u32,
    p: Seq<Seq<u8>>,
    escalated: bool,
    now: Instant,
)
    requires
        cols > 0,
        a.len() == pa.len(),
        b.len() == pb.len(),
    ensures
        s.all_refining(cols, grid_cols, a + b, pa + pb, escalated, now) == s.all_refining(
            cols,
            grid_cols,
            a,
            pa,
            escalated,
            now,
        ).all_refining(cols, grid_cols, b, pb, escalated, now),
        s.all_refining(cols, grid_cols, seq![index], seq![p], escalated, now) == s.refining(
            (gpu::coordinates(index, cols).0 % 256) as u8,
            (gpu::coordinates(index, cols).1 % 256) as u8,
            grid_cols,
            p,
            escalated,
            now,
        ),
    decreases b.len(),
{
    reveal_with_fuel(EmitState::all_refining, 2);
    assert(seq![index].drop_last() =~= Seq::empty());
    assert(seq![p].drop_last() =~= Seq::empty());
    if b.len() == 0 {
        assert(a + b =~= a);
        assert(pa + pb =~= pa);
    } else {
        assert((a + b).drop_last() =~= a + b.drop_last());
        assert((pa + pb).drop_last() =~= pa + pb.drop_last());
        assert((a + b).last() == b.last());
        assert((pa + pb).last() == pb.last());
        tiles_are_refined_in_turn(
            s,
            cols,
            grid_cols,
            a,
            pa,
            b.drop_last(),
            pb.drop_last(),
            index,
            p,
            escalated,
            now,
        );
    }
}

/// A palette's colours are read byte by byte, blue first, and as many as it
/// counts.
pub proof fn a_color_is_four_bytes(v: u32, count: u32, colors: Seq<u32>, i: int)
    requires
        count <= 255,
        0 <= i < count,
    ensures
        ({
            let c = phases::color_of(v);
            c.b + 256 * c.g + 65536 * c.r + 16777216 * c.a == v
        }),
        phases::colors_of(count, colors).len() == count,
        ({
            let c = phases::colors_of(count, colors)[i];
            c.b + 256 * c.g + 65536 * c.r + 16777216 * c.a == colors[i]
        }),
{
    bytes_of_color(v);
    bytes_of_color(colors[i]);
}

proof fn bytes_of_color(v: u32)
    ensures
        ({
            let c = phases::color_of(v);
            c.b + 256 * c.g + 65536 * c.r + 16777216 * c.a == v
        }),
{
}

// ---------------------------------------------------------------------------
// Full frames
// ---------------------------------------------------------------------------

/// Fragments of frames are kept under numbers of their own, and a frame is
/// recent while it is among the last three before the current one.
pub proof fn recent_frames_are_kept(f: u32, i: u16, g: u32, j: u16, seq: u32)
    ensures
        full_frame::fragment_key(f, i) == full_frame::fragment_key(g, j) <==> f == g && i == j,
        f <= seq ==> (full_frame::is_recent(full_frame::fragment_key(f, i), seq) <==> seq - f <= 3),
        f > seq ==> (full_frame::is_recent(full_frame::fragment_key(f, i), seq) <==> seq
            + 0x1_0000_0000 - f <= 3),
{
    assert(full_frame::fragment_key(f, i) == f * 0x1_0000 + i);
    assert(full_frame::fragment_key(g, j) == g * 0x1_0000 + j);
    assert(full_frame::fragment_key(f, i) / 0x1_0000 == f);
}

/// Remembering fragments: those of old frames go, the others stay, and the
/// new ones are found under their own numbers.
pub proof fn fragments_are_remembered(
    m: Map<u64, Seq<u8>>,
    a: Seq<Seq<u8>>,
    b: Seq<Seq<u8>>,
    dg: Seq<u8>,
    seq: u32,
    k: u64,
)
    ensures
        full_frame::recent_only(m, seq).dom().contains(k) <==> m.dom().contains(k)
            && full_frame::is_recent(k, seq),
        full_frame::recent_only(m, seq).dom().contains(k) ==> full_frame::recent_only(m, seq)[k]
            == m[k],
        full_frame::with_fragments(m, a + b) == full_frame::with_fragments(
            full_frame::with_fragments(m, a),
            b,
        ),
        dg.len() < 14 ==> full_frame::with_fragments(m, seq![dg]) == m,
        dg.len() >= 14 ==> ({
            let h = protocol::FrameHeader::parse(dg);
            let own = full_frame::fragment_key(h.frame_seq, h.frag_idx);
            let after = full_frame::with_fragments(m, seq![dg]);
            &&& after.dom().contains(own) && after[own] == dg
            &&& k != own ==> after.dom().contains(k) == m.dom().contains(k)
            &&& k != own && m.dom().contains(k) ==> after[k] == m[k]
        }),
    decreases b.len(),
{
    reveal_with_fuel(full_frame::with_fragments, 2);
    assert(seq![dg].drop_last() =~= Seq::empty());
    assert(seq![dg].last() == dg);
    if b.len() == 0 {
        assert(a + b =~= a);
    } else {
        assert((a + b).drop_last() =~= a + b.drop_last());
        assert((a + b).last() == b.last());
        fragments_are_remembered(m, a, b.drop_last(), dg, seq, k);
    }
}

/// A frame's fragments leave room for their header, and where the frame is
/// split and protected also for the header of the parity.
pub proof fn fragments_leave_room(len: nat, max: nat, k: nat)
    requires
        max > 17,
    ensures
        k > 1 && len > max - 14 ==> full_frame::fragment_room(len, max, k) + 17 == max,
        k <= 1 || len <= max - 14 ==> full_frame::fragment_room(len, max, k) + 14 == max,
{
}

/// A parity names the group it protects: where the group begins, how many
/// fragments it holds, and their exclusive or behind.
pub proof fn a_parity_names_its_group(fragments: Seq<Seq<u8>>, k: nat, g: int)
    requires
        0 < k <= 255,
        0 <= g,
        g * k < fragments.len() <= 0xFFFF,
    ensures
        ({
            let (start, p) = fec::group_parity(fragments, k, g);
            let members = fec::group(fragments, k, g);
            &&& start == g * k
            &&& p[0] * 256 + p[1] == g * k
            &&& p[2] == members.len()
            &&& p.skip(3) == fec::group_xor(members)
            &&& 0 < members.len() <= k
            &&& forall|i: int|
                0 <= i < members.len() ==> #[trigger] members[i] == fragments[g * k + i]
            &&& members.len() < k ==> g * k + members.len() == fragments.len()
        }),
{
    assert((g + 1) * k == g * k + k) by (nonlinear_arith);
    assert(g * k >= 0) by (nonlinear_arith)
        requires
            g >= 0,
            k > 0,
    ;
    let (start, p) = fec::group_parity(fragments, k, g);
    let members = fec::group(fragments, k, g);
    assert(p.skip(3) =~= fec::group_xor(members));
}

/// Every group of more than one fragment has its parity, in order, and no
/// other group has one.
pub proof fn each_group_has_its_parity(fragments: Seq<Seq<u8>>, k: nat, n: nat)
    ensures
        fec::parities(fragments, k, 0) == Seq::<(u16, Seq<u8>)>::empty(),
        fec::group(fragments, k, n as int).len() > 1 ==> fec::parities(fragments, k, n + 1)
            == fec::parities(fragments, k, n) + seq![fec::group_parity(fragments, k, n as int)],
        fec::group(fragments, k, n as int).len() <= 1 ==> fec::parities(fragments, k, n + 1)
            == fec::parities(fragments, k, n),
{
    assert(fec::parities(fragments, k, n).push(fec::group_parity(fragments, k, n as int))
        =~= fec::parities(fragments, k, n) + seq![fec::group_parity(fragments, k, n as int)]);
}

// ---------------------------------------------------------------------------
// Messages
// ---------------------------------------------------------------------------

/// Of what is received, all but the pings is handed on, in order.
pub proof fn all_but_pings_is_handed_on(a: Seq<Seq<u8>>, b: Seq<Seq<u8>>, p: Seq<u8>)
    ensures
        messages::not_pings(a + b) == messages::not_pings(a) + messages::not_pings(b),
        p == seq![0x70u8, 0x69, 0x6e, 0x67] ==> messages::not_pings(seq![p]) == Seq::<
            Seq<u8>,
        >::empty(),
        p != seq![0x70u8, 0x69, 0x6e, 0x67] ==> messages::not_pings(seq![p]) == seq![p],
    decreases b.len(),
{
    reveal_with_fuel(messages::not_pings, 2);
    assert(protocol::PING_PAYLOAD@ =~= seq![0x70u8, 0x69, 0x6e, 0x67]);
    assert(seq![p].drop_last() =~= Seq::empty());
    assert(seq![p].last() == p);
    assert(Seq::<Seq<u8>>::empty().push(p) =~= seq![p]);
    if b.len() == 0 {
        assert(a + b =~= a);
        assert(messages::not_pings(a) + messages::not_pings(b) =~= messages::not_pings(a));
    } else {
        assert((a + b).drop_last() =~= a + b.drop_last());
        assert((a + b).last() == b.last());
        all_but_pings_is_handed_on(a, b.drop_last(), p);
        assert(messages::not_pings(a + b) =~= messages::not_pings(a) + messages::not_pings(b));
    }
}

/// A feedback stream begins with a report of 22 bytes, a greeting of two or a
/// decoding error of five, told apart by the first byte.
pub proof fn the_first_byte_tells_the_message(s: Seq<u8>)
    requires
        s.len() > 0,
    ensures
        s[0] == 1 && s.len() >= 22 ==> messages::first_message(s) == Some(
            (FeedbackView::Receiver(s.take(22)), 22nat),
        ),
        s[0] == 3 && s.len() >= 2 ==> (messages::first_message(s) matches Some((
            FeedbackView::Hello(h),
            n,
        )) && n == 2 && h.caps.indices_raw_enabled == (s[1] % 2 == 1) && h.caps.supports_h264 == (
        s[1] / 2 % 2 == 1)),
        s[0] == 4 && s.len() >= 5 ==> (messages::first_message(s) matches Some((
            FeedbackView::DecodeError(e),
            n,
        )) && n == 5 && e.codec == s[1] && e.tile_x == s[2] && e.tile_y == s[3] && e.error_code
            == s[4]),
        s[0] != 1 && s[0] != 3 && s[0] != 4 ==> messages::first_message(s) is None,
        s[0] == 1 && s.len() < 22 ==> messages::first_message(s) is None,
        s[0] == 3 && s.len() < 2 ==> messages::first_message(s) is None,
        s[0] == 4 && s.len() < 5 ==> messages::first_message(s) is None,
{
}

/// Loss counts as much above half a percent, and as little below a fifth of
/// one; never as both.
pub proof fn loss_is_much_or_little(received: u32, lost: u32)
    ensures
        messages::much_is_lost(received, lost) <==> 200 * lost > received + lost,
        messages::little_is_lost(received, lost) <==> lost == 0 || 500 * lost < received + lost,
        !(messages::much_is_lost(received, lost) && messages::little_is_lost(received, lost)),
{
}

/// What a client's message changes: a report is handed on, a greeting sets
/// what the client can do, and a palette that a tile lacks is sent again.
pub proof fn a_message_changes_one_thing(s: FeedbackState, m: FeedbackView, t: TileTable)
    ensures
        m matches FeedbackView::Receiver(b) ==> {
            let a = s.after(m, t);
            &&& a.reports == s.reports.push(b)
            &&& a.caps == s.caps && a.palettes == s.palettes && a.rebundled == s.rebundled
        },
        m matches FeedbackView::Hello(h) ==> {
            let a = s.after(m, t);
            &&& a.caps == h.caps
            &&& a.reports == s.reports && a.palettes == s.palettes && a.rebundled == s.rebundled
        },
        m matches FeedbackView::DecodeError(e) ==> {
            let a = s.after(m, t);
            let at = e.tile_y * t.cols + e.tile_x;
            let inside = e.tile_x < t.cols && e.tile_y < t.rows;
            let lacks = e.error_code == 3 && inside && t.tiles@[at].codec_state is PalRle;
            &&& a.caps == s.caps && a.reports == s.reports
            &&& a.palettes.in_flight == s.palettes.in_flight
            &&& !lacks ==> a.palettes == s.palettes && a.rebundled == s.rebundled
            &&& lacks ==> {
                let id = t.tiles@[at].codec_state->palette_id;
                &&& a.rebundled == s.rebundled.push(id)
                &&& s.palettes.wf() ==> !a.palettes.delivered[id as int]
                &&& s.palettes.wf() ==> forall|i: int|
                    0 <= i < 256 && i != id ==> #[trigger] a.palettes.delivered[i]
                        == s.palettes.delivered[i]
            }
        },
{
}

/// Messages are taken one after the other.
pub proof fn messages_are_taken_in_turn(
    s: FeedbackState,
    a: Seq<FeedbackView>,
    b: Seq<FeedbackView>,
    m: FeedbackView,
    t: TileTable,
)
    ensures
        s.after_all(a + b, t) == s.after_all(a, t).after_all(b, t),
        s.after_all(seq![m], t) == s.after(m, t),
        s.after_all(Seq::empty(), t) == s,
    decreases b.len(),
{
    reveal_with_fuel(FeedbackState::after_all, 2);
    assert(seq![m].drop_last() =~= Seq::empty());
    assert(seq![m].last() == m);
    if b.len() == 0 {
        assert(a + b =~= a);
    } else {
        assert((a + b).drop_last() =~= a + b.drop_last());
        assert((a + b).last() == b.last());
        messages_are_taken_in_turn(s, a, b.drop_last(), m, t);
    }
}

// ---------------------------------------------------------------------------
// Settings
// ---------------------------------------------------------------------------

/// A digit is worth its distance from zero.
pub proof fn a_digit_has_its_worth(c: char)
    ensures
        config::is_digit(c) <==> '0' <= c <= '9',
        config::is_digit(c) ==> config::digit_of(c)->0 as int == c as int - '0' as int,
{
}

/// A number is read in base ten: a digit put behind shifts the others by one
/// place.
pub proof fn numbers_are_read_in_base_ten(s: Seq<char>, c: char, max: u64)
    requires
        config::is_digit(c),
        s.len() > 0,
        config::all_digits(s),
        config::digits_value(s) >= 0,
    ensures
        config::digits_value(s.push(c)) == 10 * config::digits_value(s) + (c as int - '0' as int),
        config::digits_value(Seq::empty()) == 0,
        config::number_in(s.push(c), max) is Some <==> config::digits_value(s.push(c)) <= max,
        config::number_in(s.push(c), max) is Some ==> config::number_in(s.push(c), max)->0
            == config::digits_value(s.push(c)),
        config::number_in(seq!['+'] + s, max) == config::number_in(s, max),
{
    a_digit_has_its_worth(c);
    let t = s.push(c);
    assert(t.drop_last() =~= s);
    assert(t.last() == c);
    assert(t[0] == s[0]);
    assert(config::is_digit(s[0]));
    assert(config::unsigned_part(t) == t);
    assert forall|i: int| 0 <= i < t.len() implies config::is_digit(#[trigger] t[i]) by {
        if i < s.len() {
            assert(t[i] == s[i]);
        }
    }
    assert((seq!['+'] + s).skip(1) =~= s);
}

/// What stands before the first separator holds none, and is followed by it.
pub proof fn the_first_part_ends_at_the_separator(s: Seq<char>, c: char)
    ensures
        ({
            let p = config::before_first(s, c);
            &&& p.len() <= s.len()
            &&& p == s.take(p.len() as int)
            &&& !p.contains(c)
            &&& p.len() < s.len() ==> s[p.len() as int] == c
            &&& config::after_first(s, c) is None <==> !s.contains(c)
            &&& config::after_first(s, c) matches Some(rest) ==> s == p + seq![c] + rest
        }),
{
    let p = config::before_first(s, c);
    first_part(s, c);
    assert(p =~= s.take(p.len() as int));
    if p.contains(c) {
        let i = choose|i: int| 0 <= i < p.len() && p[i] == c;
        assert(s[i] != c);
    }
    if p.len() < s.len() {
        assert(s[p.len() as int] == c);
        assert(s =~= p + seq![c] + s.skip(p.len() as int + 1));
    } else if s.contains(c) {
        let i = choose|i: int| 0 <= i < s.len() && s[i] == c;
        assert(p[i] == s[i]);
    }
}

proof fn first_part(s: Seq<char>, c: char)
    ensures
        ({
            let p = config::before_first(s, c);
            &&& p.len() <= s.len()
            &&& forall|i: int| 0 <= i < p.len() ==> #[trigger] p[i] == s[i]
            &&& forall|i: int| 0 <= i < p.len() ==> #[trigger] s[i] != c
            &&& p.len() < s.len() ==> s[p.len() as int] == c
        }),
    decreases s.len(),
{
    if s.len() > 0 && s[0] != c {
        let p = config::before_first(s, c);
        let t = s.skip(1);
        let q = config::before_first(t, c);
        first_part(t, c);
        assert(p == seq![s[0]] + q);
        assert forall|i: int| 0 <= i < p.len() implies #[trigger] p[i] == s[i] by {
            if i > 0 {
                assert(p[i] == q[i - 1]);
                assert(q[i - 1] == t[i - 1]);
            }
        }
        assert forall|i: int| 0 <= i < p.len() implies #[trigger] s[i] != c by {
            if i > 0 {
                assert(t[i - 1] != c);
            }
        }
        if p.len() < s.len() {
            assert(t[q.len() as int] == s[p.len() as int]);
        }
    }
}

/// What stands behind the last separator holds none, and is preceded by it.
pub proof fn the_last_part_begins_at_the_separator(s: Seq<char>, c: char)
    ensures
        ({
            let p = config::after_last(s, c);
            &&& p.len() <= s.len()
            &&& p == s.skip(s.len() - p.len())
            &&& !p.contains(c)
            &&& p.len() < s.len() ==> s[s.len() - p.len() - 1] == c
        }),
{
    let p = config::after_last(s, c);
    last_part(s, c);
    let from = s.len() - p.len();
    assert(p =~= s.skip(from));
    if p.contains(c) {
        let i = choose|i: int| 0 <= i < p.len() && p[i] == c;
        assert(s[from + i] != c);
    }
}

proof fn last_part(s: Seq<char>, c: char)
    ensures
        ({
            let p = config::after_last(s, c);
            let from = s.len() - p.len();
            &&& p.len() <= s.len()
            &&& forall|i: int| 0 <= i < p.len() ==> #[trigger] p[i] == s[from + i]
            &&& forall|i: int| from <= i < s.len() ==> #[trigger] s[i] != c
            &&& p.len() < s.len() ==> s[from - 1] == c
        }),
    decreases s.len(),
{
    if s.len() > 0 && s.last() != c {
        let p = config::after_last(s, c);
        let t = s.drop_last();
        let q = config::after_last(t, c);
        last_part(t, c);
        let from = s.len() - p.len();
        assert(p == q.push(s.last()));
        assert forall|i: int| 0 <= i < p.len() implies #[trigger] p[i] == s[from + i] by {
            if i < q.len() {
                assert(p[i] == q[i]);
                assert(q[i] == t[from + i]);
            }
        }
        assert forall|i: int| from <= i < s.len() implies #[trigger] s[i] != c by {
            if i < t.len() {
                assert(t[i] != c);
            }
        }
        if p.len() < s.len() {
            assert(t[from - 1] == s[from - 1]);
        }
    }
}

/// Of several addresses the first of the fourth version is bound, else the
/// first.
pub proof fn the_first_fitting_address_is_bound(v4: Seq<bool>, i: int)
    requires
        0 <= i < v4.len(),
        v4[i],
        forall|j: int| 0 <= j < i ==> !(#[trigger] v4[j]),
    ensures
        config::bind_choice(v4) == Some(i),
{
    assert(config::is_first_ipv4(v4, i));
    let c = choose|k: int| config::is_first_ipv4(v4, k);
    assert(config::is_first_ipv4(v4, c));
    if c < i {
        assert(!v4[c]);
    } else if i < c {
        assert(!v4[i]);
    }
}

/// Without an address of the fourth version the first is bound.
pub proof fn otherwise_the_first_address_is_bound(v4: Seq<bool>)
    requires
        forall|j: int| 0 <= j < v4.len() ==> !(#[trigger] v4[j]),
    ensures
        v4.len() == 0 ==> config::bind_choice(v4) is None,
        v4.len() > 0 ==> config::bind_choice(v4) == Some(0int),
{
    if exists|i: int| config::is_first_ipv4(v4, i) {
        let i = choose|i: int| config::is_first_ipv4(v4, i);
        assert(!v4[i]);
    }
}

/// Which datagrams a loss setting picks: the kinds of palette runs are told
/// apart by a bit, no datagram is of both, and both are tiles.
pub proof fn loss_kinds_are_told_apart(dg: Seq<u8>)
    ensures
        DropKind::All.picked(dg),
        DropKind::Tile.picked(dg) <==> dg.len() > 0 && dg[0] >= 128,
        DropKind::Ack.picked(dg) <==> dg.len() > 0 && dg[0] == 4,
        !(DropKind::PalRleBundled.picked(dg) && DropKind::PalRleThin.picked(dg)),
        DropKind::PalRleBundled.picked(dg) || DropKind::PalRleThin.picked(dg)
            ==> DropKind::Tile.picked(dg) && dg.len() >= 21,
        DropKind::PalRleBundled.picked(dg) ==> dg[20] % 2 == 1,
        DropKind::PalRleThin.picked(dg) ==> dg[20] % 2 == 0,
{
}

/// Two numbers with a comma between them are a pair.
pub proof fn a_comma_makes_a_pair(a: Seq<char>, b: Seq<char>)
    requires
        !a.contains(','),
        !b.contains(','),
    ensures
        ({
            let s = a + seq![','] + b;
            let x = config::number_in(a, 0xFFFF_FFFF);
            let y = config::number_in(b, 0xFFFF_FFFF);
            &&& x is Some && y is Some ==> config::pair_in(s) == Some((x->0 as u32, y->0 as u32))
            &&& x is None || y is None ==> config::pair_in(s) is None
            &&& config::pair_in(a) is None
        }),
{
    let s = a + seq![','] + b;
    the_first_part_ends_at_the_separator(s, ',');
    the_first_part_ends_at_the_separator(b, ',');
    the_first_part_ends_at_the_separator(a, ',');
    let p = config::before_first(s, ',');
    assert(s[a.len() as int] == ',');
    assert(s.contains(','));
    if p.len() < a.len() {
        assert(s[p.len() as int] == a[p.len() as int]);
        assert(a.contains(','));
    } else if p.len() > a.len() {
        assert(p[a.len() as int] == s[a.len() as int]);
        assert(p.contains(','));
    }
    assert(p =~= a);
    let rest = config::after_first(s, ',')->0;
    assert(rest =~= b);
    let q = config::before_first(b, ',');
    if q.len() < b.len() {
        assert(b[q.len() as int] == ',');
        assert(b.contains(','));
    }
    assert(q =~= b);
}

/// The kinds of loss have a name each; any other name means all datagrams.
pub proof fn loss_kinds_have_names(s: Seq<char>)
    ensures
        config::kind_named(None) == DropKind::All,
        config::kind_named(Some(seq!['t', 'i', 'l', 'e'])) == DropKind::Tile,
        config::kind_named(Some(seq!['a', 'c', 'k'])) == DropKind::Ack,
        config::kind_named(
            Some(seq!['p', 'a', 'l', 'r', 'l', 'e', '_', 't', 'h', 'i', 'n']),
        ) == DropKind::PalRleThin,
        config::kind_named(
            Some(seq!['p', 'a', 'l', 'r', 'l', 'e', '_', 'b', 'u', 'n', 'd', 'l', 'e', 'd']),
        ) == DropKind::PalRleBundled,
        s.len() != 3 && s.len() != 4 && s.len() != 11 && s.len() != 14 ==> config::kind_named(
            Some(s),
        ) == DropKind::All,
{
    reveal_strlit("tile");
    reveal_strlit("ack");
    reveal_strlit("palrle_thin");
    reveal_strlit("palrle_bundled");
    assert("tile"@ =~= seq!['t', 'i', 'l', 'e']);
    assert("ack"@ =~= seq!['a', 'c', 'k']);
    assert("palrle_thin"@ =~= seq!['p', 'a', 'l', 'r', 'l', 'e', '_', 't', 'h', 'i', 'n']);
    assert("palrle_bundled"@ =~= seq![
        'p', 'a', 'l', 'r', 'l', 'e', '_', 'b', 'u', 'n', 'd', 'l', 'e', 'd',
    ]);
}

/// What stands for room in a datagram is the room.
pub proof fn room_is_counted_alike(size: usize)
    ensures
        session::usable_fn()(size) == session::usable(size),
        session::tile_payload_fn()(size) == session::tile_payload(size),
{
}

/// A blank tile is skipped, is taken to have any number of colours and may be
/// refined.
pub proof fn a_blank_tile_is_skipped()
    ensures
        tiles::blank_tile().codec_state == CodecState::Skip,
        tiles::blank_tile().unique_colors == 65535,
        tiles::blank_tile().edge_density_thou == 0,
        !tiles::blank_tile().already_escalated,
{
}

/// The tiles of a frame are those of the last one on the same grid, and blank
/// on another; the scheduler starts over on another grid.
pub proof fn another_grid_starts_blank(b: IoBridge, cols: u32, rows: u32)
    ensures
        b.emission.tiles.cols == cols && b.emission.tiles.rows == rows ==> b.synced_tiles(cols, rows)
            == b.emission.tiles.tiles@ && b.synced_scheduler(cols, rows)
            == b.emission.scheduler@,
        b.emission.tiles.cols != cols || b.emission.tiles.rows != rows ==> {
            let t = b.synced_tiles(cols, rows);
            let s = b.synced_scheduler(cols, rows);
            &&& t.len() == cols * rows
            &&& forall|i: int|
                0 <= i < cols * rows ==> (#[trigger] t[i]).codec_state == CodecState::Skip
            &&& s.cols == cols && s.rows == rows
            &&& s.priority.len() == 0 && s.refinement.len() == 0
        },
{
    assert(cols * rows >= 0) by (nonlinear_arith);
}

/// A tile's palette is that of the frame that its own was folded into.
pub proof fn a_tile_asks_for_its_folded_palette(
    f: crate::io_bridge::palette_run::PaletteFrame,
    c: int,
    i: int,
)
    requires
        0 <= c < f.local_ids@.len(),
        f.local_ids@[c] < f.folded_into@.len(),
        f.folded_into@[f.local_ids@[c] as int] < 256,
        f.folded_into@[f.local_ids@[c] as int] < f.palette_set@.len(),
        f.palette_set@[f.folded_into@[f.local_ids@[c] as int] as int].count <= 255,
        0 <= i < f.palette_set@[f.folded_into@[f.local_ids@[c] as int] as int].count,
    ensures
        ({
            let set = f.palette_set@[f.folded_into@[f.local_ids@[c] as int] as int];
            let want = crate::io_bridge::palette_run::wanted_colors(f, c);
            &&& want.len() == set.count
            &&& want[i].b + 256 * want[i].g + 65536 * want[i].r + 16777216 * want[i].a
                == set.colors@[i]
        }),
{
    bytes_of_color(f.palette_set@[f.folded_into@[f.local_ids@[c] as int] as int].colors@[i]);
}

/// A full frame goes out as its fragments in order, each with its place.
pub proof fn a_frame_goes_out_in_fragments(
    seq: u32,
    timestamp_us: u32,
    key: bool,
    payload: Seq<u8>,
    max: nat,
    i: int,
)
    requires
        max > 0,
        0 <= i < protocol::chunk_count(payload.len(), max) <= 0xFFFF,
    ensures
        ({
            let s = full_frame::frame_sources(seq, timestamp_us, key, payload, max);
            &&& s.len() == protocol::chunk_count(payload.len(), max)
            &&& crate::wire_layout::big32(s[i], 0) == seq
            &&& crate::wire_layout::big16(s[i], 4) == i
            &&& crate::wire_layout::big16(s[i], 6) == s.len()
            &&& crate::wire_layout::big32(s[i], 8) == timestamp_us
            &&& s[i][12] % 2 == 1 <==> key
            &&& full_frame::frame_payloads(s)[i] == protocol::chunk(payload, max, i)
        }),
{
    crate::wire_layout::frame_fragment_layout(seq, timestamp_us, key, payload, max, i);
}

/// The parities of a full frame are those of its payloads, group by group; a
/// frame of one fragment has none.
pub proof fn a_frame_is_protected_by_groups(
    seq: u32,
    timestamp_us: u32,
    key: bool,
    sources: Seq<Seq<u8>>,
    k: nat,
    i: int,
)
    requires
        sources.len() <= 0xFFFF,
    ensures
        sources.len() <= 1 || k == 0 ==> full_frame::frame_parities(
            seq,
            timestamp_us,
            key,
            sources,
            k,
        ).len() == 0,
        sources.len() > 1 && k > 0 ==> ({
            let p = full_frame::frame_parities(seq, timestamp_us, key, sources, k);
            let g = fec::parities(
                full_frame::frame_payloads(sources),
                k,
                protocol::chunk_count(sources.len(), k),
            );
            &&& p.len() == g.len()
            &&& 0 <= i < p.len() ==> {
                &&& crate::wire_layout::big32(p[i], 0) == seq
                &&& crate::wire_layout::big16(p[i], 6) == sources.len()
                &&& crate::wire_layout::big16(p[i], 4) >= sources.len()
                &&& crate::wire_layout::big32(p[i], 8) == timestamp_us
                &&& p[i].skip(14) == g[i].1
            }
        }),
{
    if sources.len() > 1 && k > 0 {
        let p = full_frame::frame_parities(seq, timestamp_us, key, sources, k);
        let g = fec::parities(
            full_frame::frame_payloads(sources),
            k,
            protocol::chunk_count(sources.len(), k),
        );
        if 0 <= i < p.len() {
            crate::wire_layout::frame_parity_layout(
                seq,
                timestamp_us,
                key,
                sources.len() as u16,
                g[i].1,
            );
        }
    }
}

/// What lies in a list of buffers is what the buffers hold, in order.
pub proof fn lists_keep_their_order(list: Seq<Vec<u8>>, i: int)
    requires
        0 <= i < list.len(),
    ensures
        full_frame::contents(list).len() == list.len(),
        full_frame::contents(list)[i] == list[i]@,
        messages::contents(list).len() == list.len(),
        messages::contents(list)[i] == list[i]@,
{
}

/// What is no number is not taken for one.
pub proof fn other_text_is_no_number(s: Seq<char>, i: int, max: u64)
    requires
        1 <= i < s.len(),
        !('0' <= s[i] <= '9'),
    ensures
        config::number_in(s, max) is None,
        config::number_in(Seq::empty(), max) is None,
        config::number_in(seq!['+'], max) is None,
{
    a_digit_has_its_worth(s[i]);
    let d = config::unsigned_part(s);
    if s[0] == '+' {
        assert(d[i - 1] == s[i]);
    } else {
        assert(d[i] == s[i]);
    }
    assert(!config::all_digits(d));
    assert(seq!['+'].skip(1).len() == 0);
}

/// The payload that is sent to test a decoder has one colour and asks for
/// others: every index lies beyond it.
pub proof fn the_spoiled_payload_is_out_of_range(i: int)
    requires
        7 <= i < 71,
    ensures
        phases::spoiled_payload().len() == 71,
        phases::spoiled_payload()[0] % 2 == 1,
        phases::spoiled_payload()[2] == 1,
        phases::spoiled_payload()[i] % 16 >= phases::spoiled_payload()[2],
{
}

/// A flag is set by the word in any mixture of large and small letters.
pub proof fn a_flag_is_set_in_any_case(s: Seq<char>)
    ensures
        config::is_true_any_case(s) <==> {
            &&& s.len() == 4
            &&& s[0] as int == 't' as int || s[0] as int == 't' as int - 32
            &&& s[1] as int == 'r' as int || s[1] as int == 'r' as int - 32
            &&& s[2] as int == 'u' as int || s[2] as int == 'u' as int - 32
            &&& s[3] as int == 'e' as int || s[3] as int == 'e' as int - 32
        },
{
}

/// A datagram of palette runs is told by its length, its first bit and the
/// codec, and with or without the palette by one bit more.
pub proof fn palette_runs_are_told_by_their_bits(dg: Seq<u8>)
    ensures
        DropKind::PalRleBundled.picked(dg) <==> dg.len() >= 21 && dg[0] >= 128 && dg[14] / 2 == 2
            && dg[20] % 2 == 1,
        DropKind::PalRleThin.picked(dg) <==> dg.len() >= 21 && dg[0] >= 128 && dg[14] / 2 == 2
            && dg[20] % 2 == 0,
{
}

/// Lists of indices, of passes and of messages keep their order.
pub proof fn more_lists_keep_their_order(
    indices: Seq<u32>,
    cols: u32,
    passes: Seq<Vec<Vec<u8>>>,
    list: Seq<messages::FeedbackMsg>,
    i: int,
)
    ensures
        gpu::all_coordinates(indices, cols).len() == indices.len(),
        0 <= i < indices.len() ==> gpu::all_coordinates(indices, cols)[i] == gpu::coordinates(
            indices[i],
            cols,
        ),
        gpu::all_passes(passes).len() == passes.len(),
        0 <= i < passes.len() ==> gpu::all_passes(passes)[i] == full_frame::contents(passes[i]@),
        messages::message_views(list).len() == list.len(),
        0 <= i < list.len() ==> messages::message_views(list)[i] == list[i]@,
{
}

/// Counts of palettes stay at the largest number.
pub proof fn palette_counts_never_fall(n: u32)
    ensures
        n < u32::MAX ==> phases::one_more(n) == n + 1,
        phases::one_more(u32::MAX) == u32::MAX,
{
}

/// A number begins with a digit or with a plus.
pub proof fn a_number_begins_with_a_digit_or_plus(s: Seq<char>, max: u64)
    requires
        s.len() > 0,
        !('0' <= s[0] <= '9'),
        s[0] != '+',
    ensures
        config::number_in(s, max) is None,
{
    a_digit_has_its_worth(s[0]);
    assert(config::unsigned_part(s)[0] == s[0]);
    assert(!config::all_digits(config::unsigned_part(s)));
}

} // verus!
