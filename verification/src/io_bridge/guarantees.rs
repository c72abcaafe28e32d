//! What emission guarantees: which bytes a dirty tile goes out as, what an
//! acknowledgement settles and when a palette counts as delivered.
use crate::ack::AckEntry;
use crate::fragment_coverage;
use crate::fragment_coverage::FragmentCoverage;
use crate::io_bridge::acks;
use crate::io_bridge::dispatch;
use crate::io_bridge::dispatch::{
    all_dropped, palette_ids, DirtyView, EmitRules, EmitState, SchedulerEmissionPolicy,
};
use crate::io_bridge::palettes::DeliveryView;
use crate::io_bridge::tiles;
use crate::io_bridge::tiles::{CodecState, TileAnalysis, TileState};
use crate::protocol;
use crate::protocol::Codec;
use crate::scheduler;
use crate::scheduler::guarantees as sched_laws;
use crate::scheduler::guarantees::swept;
use crate::scheduler::work::{WorkState, WorkView};
use crate::scheduler::ResolvedTileWork;
use crate::seqs;
use crate::time::{Duration, Instant};
use vstd::prelude::*;

verus! {

// ---------------------------------------------------------------------------
// Palettes
// ---------------------------------------------------------------------------

/// A palette is delivered by an acknowledgement and by nothing else: sending
/// or dropping work leaves what is delivered as it was, an acknowledgement
/// adds its palette, and only asking for a palette again takes it back.
pub proof fn only_an_ack_delivers(p: DeliveryView, id: u8, other: u8)
    requires
        p.wf(),
        other != id,
    ensures
        p.sent(id).delivered == p.delivered,
        p.dropped(id).delivered == p.delivered,
        p.acked(id).delivered[id as int],
        p.acked(id).delivered[other as int] == p.delivered[other as int],
        !p.rebundled(id).delivered[id as int],
        p.rebundled(id).delivered[other as int] == p.delivered[other as int],
        p.sent(id).wf() && p.acked(id).wf() && p.dropped(id).wf() && p.rebundled(id).wf(),
{
}

/// Work in flight is counted per palette: one more when sent, one less when
/// acknowledged or dropped, never below none, and other palettes untouched.
pub proof fn flights_are_counted(p: DeliveryView, id: u8, other: u8)
    requires
        p.wf(),
        other != id,
    ensures
        p.in_flight[id as int] < u32::MAX ==> p.sent(id).in_flight[id as int]
            == p.in_flight[id as int] + 1,
        p.in_flight[id as int] == u32::MAX ==> p.sent(id).in_flight == p.in_flight,
        p.in_flight[id as int] > 0 ==> p.acked(id).in_flight[id as int] + 1
            == p.in_flight[id as int],
        p.in_flight[id as int] > 0 ==> p.dropped(id).in_flight[id as int] + 1
            == p.in_flight[id as int],
        p.in_flight[id as int] == 0 ==> p.acked(id).in_flight == p.in_flight,
        p.in_flight[id as int] == 0 ==> p.dropped(id).in_flight == p.in_flight,
        p.rebundled(id).in_flight == p.in_flight,
        p.sent(id).in_flight[other as int] == p.in_flight[other as int],
        p.acked(id).in_flight[other as int] == p.in_flight[other as int],
        p.dropped(id).in_flight[other as int] == p.in_flight[other as int],
{
}

/// A palette that was sent and dropped again leaves no trace.
pub proof fn a_dropped_flight_leaves_no_trace(p: DeliveryView, id: u8)
    requires
        p.wf(),
        p.in_flight[id as int] < u32::MAX,
    ensures
        p.sent(id).dropped(id) == p,
        p.sent(id).acked(id).in_flight == p.in_flight,
{
    assert(p.sent(id).dropped(id).in_flight =~= p.in_flight);
    assert(p.sent(id).acked(id).in_flight =~= p.in_flight);
    assert(p.sent(id).dropped(id) =~= p);
}

/// A new session has nothing in flight, and what was delivered counts only if
/// it was kept.
pub proof fn a_new_session_has_nothing_in_flight(kept: Seq<bool>, i: int)
    requires
        kept.len() == 256,
        0 <= i < 256,
    ensures
        DeliveryView::fresh(None).wf() && DeliveryView::fresh(Some(kept)).wf(),
        DeliveryView::fresh(None).in_flight[i] == 0,
        DeliveryView::fresh(Some(kept)).in_flight[i] == 0,
        !DeliveryView::fresh(None).delivered[i],
        DeliveryView::fresh(Some(kept)).delivered == kept,
{
}

/// Holds of `id` alone.
pub open spec fn is_palette(id: u8) -> spec_fn(u8) -> bool {
    |x: u8| x == id
}

/// How often `id` occurs in `ids`.
pub open spec fn uses(ids: Seq<u8>, id: u8) -> nat {
    ids.filter(is_palette(id)).len()
}

/// Dropping the palettes of void work delivers none of them and takes each
/// use off its palette's flights.
pub proof fn drops_deliver_nothing(p: DeliveryView, ids: Seq<u8>, id: u8)
    requires
        p.wf(),
    ensures
        all_dropped(p, ids).wf(),
        all_dropped(p, ids).delivered == p.delivered,
        uses(ids, id) <= p.in_flight[id as int] ==> all_dropped(p, ids).in_flight[id as int]
            == p.in_flight[id as int] - uses(ids, id),
        uses(ids, id) > p.in_flight[id as int] ==> all_dropped(p, ids).in_flight[id as int] == 0,
    decreases ids.len(),
{
    let is = is_palette(id);
    if ids.len() == 0 {
        assert(ids =~= Seq::empty());
        seqs::filter_empty(is);
    } else {
        seqs::filter_last(ids, is);
        drops_deliver_nothing(p, ids.drop_last(), id);
        let before = all_dropped(p, ids.drop_last());
        if ids.last() != id {
            flights_are_counted(before, ids.last(), id);
        }
    }
}

/// The palettes that void work releases: those it names, in order.
pub proof fn named_palettes_are_released(
    a: Seq<ResolvedTileWork>,
    b: Seq<ResolvedTileWork>,
    w: ResolvedTileWork,
)
    ensures
        palette_ids(a + b) == palette_ids(a) + palette_ids(b),
        w.palette_id is Some ==> palette_ids(seq![w]) == seq![w.palette_id->0],
        w.palette_id is None ==> palette_ids(seq![w]) == Seq::<u8>::empty(),
    decreases b.len(),
{
    reveal_with_fuel(palette_ids, 2);
    assert(seq![w].drop_last() =~= Seq::empty());
    assert(seq![w].last() == w);
    if b.len() == 0 {
        assert(a + b =~= a);
        assert(palette_ids(a) + palette_ids(b) =~= palette_ids(a));
    } else {
        assert((a + b).drop_last() =~= a + b.drop_last());
        assert((a + b).last() == b.last());
        named_palettes_are_released(a, b.drop_last(), w);
        assert(palette_ids(a + b) =~= palette_ids(a) + palette_ids(b));
    }
    if w.palette_id is Some {
        assert(palette_ids(seq![w]) =~= seq![w.palette_id->0]);
    }
}

/// Holds of the waiting pieces of a tile that use palette `id`.
pub open spec fn is_user(x: u8, y: u8, id: u8) -> spec_fn(WorkView) -> bool {
    |w: WorkView|
        w.tile_x == x && w.tile_y == y && (w.state == WorkState::Pending || w.state
            == WorkState::InFlight) && w.codec == Codec::PalRle && w.payload.len() >= 2
            && w.payload[1] == id
}

/// The waiting pieces of a tile in `q` that use palette `id`.
pub open spec fn users(q: Seq<WorkView>, x: u8, y: u8, id: u8) -> Seq<WorkView> {
    q.filter(is_user(x, y, id))
}

proof fn users_are_released(q: Seq<WorkView>, x: u8, y: u8, id: u8)
    ensures
        uses(palette_ids(scheduler::resolved_for(q, x, y)), id) == users(q, x, y, id).len(),
    decreases q.len(),
{
    let p = is_user(x, y, id);
    let is = is_palette(id);
    let r = scheduler::resolved_for(q, x, y);
    if q.len() == 0 {
        assert(q =~= Seq::empty());
        seqs::filter_empty(p);
        assert(palette_ids(r) =~= Seq::empty());
        seqs::filter_empty(is);
    } else {
        users_are_released(q.drop_last(), x, y, id);
        seqs::filter_last(q, p);
        let front = scheduler::resolved_for(q.drop_last(), x, y);
        if q.last().is_tile(x, y) && q.last().is_live() {
            assert(r.drop_last() =~= front);
            let ids = palette_ids(r);
            if r.last().palette_id is Some {
                assert(ids.drop_last() =~= palette_ids(front));
                seqs::filter_last(ids, is);
            }
        }
    }
}

// ---------------------------------------------------------------------------
// A dirty tile
// ---------------------------------------------------------------------------

/// The tile's passes are out for refinement already, so it is not sent again.
pub open spec fn refines(s: EmitState, t: DirtyView, rules: EmitRules) -> bool {
    &&& rules.policy == SchedulerEmissionPolicy::GpuClassifierDriven
    &&& s.tiles[t.tile_y * rules.cols + t.tile_x].codec_state is Cdf53
    &&& rules.cdf53_enabled
    &&& rules.cdf53_supported
}

/// What a codec's bytes are: the pixels for raw, the colour for solid, the
/// palette encoding for palette runs.  No other codec is sent from here.
pub open spec fn carries(w: WorkView, t: DirtyView) -> bool {
    match w.codec {
        Codec::Raw => w.payload == t.raw,
        Codec::Solid => w.payload == t.solid,
        Codec::PalRle => t.palrle == Some(w.payload),
        _ => false,
    }
}

/// The emission knows the tile: it lies on the grid of the scheduler, whose
/// generations are in range.
pub open spec fn knows(s: EmitState, t: DirtyView) -> bool {
    &&& t.tile_x < s.sched.cols && t.tile_y < s.sched.rows
    &&& s.sched.gens.len() == s.sched.cols * s.sched.rows
    &&& forall|i: int| 0 <= i < s.sched.gens.len() ==> (#[trigger] s.sched.gens[i]) < 16
    &&& s.palettes.wf()
}

/// A dirty tile goes out once, at the end of the priority queue, in its next
/// generation and with the bytes of the codec it names.
pub proof fn a_dirty_tile_carries_its_codec(
    s: EmitState,
    t: DirtyView,
    rules: EmitRules,
    now: Instant,
)
    requires
        knows(s, t),
    ensures
        refines(s, t, rules) ==> s.queued(t, rules, now) == s,
        !refines(s, t, rules) ==> ({
            let q = s.queued(t, rules, now).sched.priority;
            let w = q.last();
            let state = s.tiles[t.tile_y * rules.cols + t.tile_x].codec_state;
            let gpu = rules.policy == SchedulerEmissionPolicy::GpuClassifierDriven;
            &&& q.len() > 0
            &&& carries(w, t)
            &&& w.codec == Codec::Solid <==> gpu && state == CodecState::Solid
            &&& w.codec == Codec::PalRle <==> gpu && state is PalRle && t.palrle is Some
            &&& w.tile_x == t.tile_x % 256 && w.tile_y == t.tile_y % 256
            &&& w.pass_idx == 0 && w.total_passes == 1
            &&& w.state == WorkState::Pending && w.last_sent_at is None && w.queued_at == now
            &&& forall|i: int|
                0 <= i < q.len() - 1 ==> (#[trigger] q[i]).tile_x != w.tile_x || q[i].tile_y
                    != w.tile_y || q[i].state == WorkState::Acked
        }),
{
    let x = t.x8();
    let y = t.y8();
    on_grid(s, t);
    if !refines(s, t, rules) {
        sched_laws::a_sweep_keeps_what_is_not_void(s.sched, x, y);
        let b = s.sched.bumped_and_swept(x, y);
        let q = s.queued(t, rules, now).sched.priority;
        assert(q.drop_last() =~= b.priority);
        assert forall|i: int| 0 <= i < q.len() - 1 implies (#[trigger] q[i]).tile_x != x
            || q[i].tile_y != y || q[i].state == WorkState::Acked by {
            assert(q[i] == b.priority[i]);
        }
    }
}

proof fn on_grid(s: EmitState, t: DirtyView)
    requires
        knows(s, t),
    ensures
        t.x8() < s.sched.cols,
        t.y8() < s.sched.rows,
        0 <= t.y8() * s.sched.cols + t.x8() < s.sched.gens.len(),
        s.sched.gens[t.y8() * s.sched.cols + t.x8()] < 16,
{
    let x = t.x8() as u32;
    let y = t.y8() as u32;
    tiles::place_is_inside(s.sched.cols, s.sched.rows, x, y);
    assert(tiles::place(s.sched.cols, x, y) == t.y8() * s.sched.cols + t.x8());
}

/// What a dirty tile leaves behind: its generation moves on and is the one it
/// is sent with, its older work is dropped and the rest stays in order, its
/// old refinement is forgotten, and no palette is delivered by it.
pub proof fn a_dirty_tile_replaces_its_past(
    s: EmitState,
    t: DirtyView,
    rules: EmitRules,
    now: Instant,
    id: u8,
)
    requires
        knows(s, t),
        !refines(s, t, rules),
    ensures
        ({
            let q = s.queued(t, rules, now);
            let x = (t.tile_x % 256) as u8;
            let y = (t.tile_y % 256) as u8;
            let at = y * s.sched.cols + x;
            let g = s.sched.gens[at];
            let n = users(s.sched.priority, x, y, id).len() + users(
                s.sched.refinement,
                x,
                y,
                id,
            ).len();
            let fl = s.palettes.in_flight[id as int];
            &&& q.sched.gens[at] == q.sched.priority.last().generation
            &&& g < 15 ==> q.sched.gens[at] == g + 1
            &&& g == 15 ==> q.sched.gens[at] == 0
            &&& q.sched.gens.len() == s.sched.gens.len()
            &&& forall|i: int|
                0 <= i < s.sched.gens.len() && i != at ==> #[trigger] q.sched.gens[i]
                    == s.sched.gens[i]
            &&& swept(s.sched.priority, q.sched.priority.drop_last(), x, y)
            &&& swept(s.sched.refinement, q.sched.refinement, x, y)
            &&& q.coverage == s.coverage.without_refinement(x, y)
            &&& q.palettes.delivered == s.palettes.delivered
            &&& n <= fl ==> q.palettes.in_flight[id as int] == fl - n
            &&& n > fl ==> q.palettes.in_flight[id as int] == 0
            &&& s.released.len() <= q.released.len()
            &&& q.released.take(s.released.len() as int) == s.released
            &&& uses(q.released.skip(s.released.len() as int), id) == n
            &&& q.sched.delivery == s.sched.delivery
            &&& q.sched.rtt == s.sched.rtt
        }),
{
    let x = t.x8();
    let y = t.y8();
    on_grid(s, t);
    sched_laws::a_sweep_keeps_what_is_not_void(s.sched, x, y);
    sched_laws::a_bump_touches_one_tile(s.sched, x, y);
    let q = s.queued(t, rules, now);
    let b = s.sched.bumped_and_swept(x, y);
    assert(q.sched.priority.drop_last() =~= b.priority);
    let p = scheduler::resolved_for(s.sched.priority, x, y);
    let r = scheduler::resolved_for(s.sched.refinement, x, y);
    let ids = palette_ids(p + r);
    named_palettes_are_released(
        p,
        r,
        ResolvedTileWork {
            tile_x: 0,
            tile_y: 0,
            generation: 0,
            pass: 0,
            codec: Codec::Raw,
            palette_id: None,
            via_ack: false,
        },
    );
    users_are_released(s.sched.priority, x, y, id);
    users_are_released(s.sched.refinement, x, y, id);
    uses_add(palette_ids(p), palette_ids(r), id);
    drops_deliver_nothing(s.palettes, ids, id);
    assert(q.released.take(s.released.len() as int) =~= s.released);
    assert(q.released.skip(s.released.len() as int) =~= ids);
}

proof fn uses_add(a: Seq<u8>, b: Seq<u8>, id: u8)
    ensures
        uses(a + b, id) == uses(a, id) + uses(b, id),
    decreases b.len(),
{
    let is = is_palette(id);
    if b.len() == 0 {
        assert(a + b =~= a);
        assert(b =~= Seq::empty());
        seqs::filter_empty(is);
    } else {
        assert((a + b).drop_last() =~= a + b.drop_last());
        seqs::filter_last(a + b, is);
        seqs::filter_last(b, is);
        uses_add(a, b.drop_last(), id);
    }
}

/// A dirty tile on the codec grid may be refined anew; nothing else is
/// changed in the table.
pub proof fn a_dirty_tile_may_be_refined_again(
    s: EmitState,
    t: DirtyView,
    rules: EmitRules,
    now: Instant,
)
    requires
        !refines(s, t, rules),
        s.tiles.len() == rules.cols * rules.rows,
    ensures
        ({
            let q = s.queued(t, rules, now);
            let at = t.tile_y * rules.cols + t.tile_x;
            let inside = t.tile_x < rules.cols && t.tile_y < rules.rows;
            &&& q.tiles.len() == s.tiles.len()
            &&& forall|i: int|
                0 <= i < s.tiles.len() && (i != at || !inside) ==> #[trigger] q.tiles[i]
                    == s.tiles[i]
            &&& inside ==> {
                &&& !q.tiles[at].already_escalated
                &&& q.tiles[at].codec_state == s.tiles[at].codec_state
                &&& q.tiles[at].unique_colors == s.tiles[at].unique_colors
                &&& q.tiles[at].edge_density_thou == s.tiles[at].edge_density_thou
            }
        }),
{
    if t.tile_x < rules.cols && t.tile_y < rules.rows {
        tiles::place_is_inside(rules.cols, rules.rows, t.tile_x, t.tile_y);
    }
}

/// Dirty tiles are queued one after the other.
pub proof fn dirty_tiles_are_queued_in_turn(
    s: EmitState,
    a: Seq<DirtyView>,
    b: Seq<DirtyView>,
    t: DirtyView,
    rules: EmitRules,
    now: Instant,
)
    ensures
        s.all_queued(a + b, rules, now) == s.all_queued(a, rules, now).all_queued(b, rules, now),
        s.all_queued(seq![t], rules, now) == s.queued(t, rules, now),
        s.all_queued(Seq::empty(), rules, now) == s,
    decreases b.len(),
{
    reveal_with_fuel(EmitState::all_queued, 2);
    assert(seq![t].drop_last() =~= Seq::empty());
    assert(seq![t].last() == t);
    if b.len() == 0 {
        assert(a + b =~= a);
    } else {
        assert((a + b).drop_last() =~= a + b.drop_last());
        assert((a + b).last() == b.last());
        dirty_tiles_are_queued_in_turn(s, a, b.drop_last(), t, rules, now);
    }
}

// ---------------------------------------------------------------------------
// Datagrams and their coverage
// ---------------------------------------------------------------------------

/// A piece of work on the wire: every datagram names its tile, codec, version
/// and pass, and the bytes behind the headers are the payload in order.
pub proof fn work_goes_out_whole(w: WorkView, seq: u32, timestamp_us: u32, max_frag: nat, i: int)
    requires
        max_frag > 0,
        w.generation < 16,
        w.pass_idx < 16,
        w.payload.len() <= 0xFFFF,
        0 <= i < dispatch::work_datagrams(w, seq, timestamp_us, max_frag).len(),
    ensures
        names_piece(
            protocol::tile_datagram_parts(
                dispatch::work_datagrams(w, seq, timestamp_us, max_frag)[i],
            ),
            w,
            seq,
            timestamp_us,
            i,
            dispatch::work_datagrams(w, seq, timestamp_us, max_frag).len(),
        ),
        protocol::tile_datagram_parts(
            dispatch::work_datagrams(w, seq, timestamp_us, max_frag)[i],
        )->Ok_0.2.len() <= max_frag,
        payloads_of(dispatch::work_datagrams(w, seq, timestamp_us, max_frag)) == w.payload,
{
    let inputs = protocol::TileFragmentInputs {
        frame_seq: protocol::tile_flagged(seq),
        tile_x: w.tile_x,
        tile_y: w.tile_y,
        codec: w.codec,
        generation: w.generation,
        pass: w.pass_idx,
        timestamp_us,
    };
    let n = protocol::chunk_count(w.payload.len(), max_frag);
    few_chunks(w.payload.len(), max_frag);
    protocol::tile_fragment_decodes(inputs, w.payload, max_frag, i);
    protocol::fragment_lengths(w.payload, max_frag, i);
    headers_name_the_piece(
        w,
        inputs,
        seq,
        timestamp_us,
        i,
        n,
        protocol::chunk(w.payload, max_frag, i),
    );
    work_reassembles(w, seq, timestamp_us, max_frag);
}

/// The decoded parts of a datagram name this piece, as fragment `i` of `n`.
pub open spec fn names_piece(
    parts: Result<
        (protocol::DatagramHeader, protocol::TileHeader, Seq<u8>),
        protocol::ProtocolError,
    >,
    w: WorkView,
    seq: u32,
    timestamp_us: u32,
    i: int,
    n: nat,
) -> bool {
    match parts {
        Ok((dh, th, _)) => {
            &&& dh.frag_idx == i && dh.frag_total == n
            &&& dh.timestamp_us == timestamp_us
            &&& dh.frame_seq >= 0x8000_0000
            &&& dh.frame_seq % 0x8000_0000 == seq % 0x8000_0000
            &&& th.tile_x == w.tile_x && th.tile_y == w.tile_y
            &&& th.codec == w.codec && !th.lz4
            &&& th.generation == w.generation && th.pass == w.pass_idx
            &&& th.payload_len == w.payload.len()
        },
        Err(_) => false,
    }
}

proof fn headers_name_the_piece(
    w: WorkView,
    inputs: protocol::TileFragmentInputs,
    seq: u32,
    timestamp_us: u32,
    i: int,
    n: nat,
    c: Seq<u8>,
)
    requires
        inputs.frame_seq == protocol::tile_flagged(seq),
        inputs.tile_x == w.tile_x,
        inputs.tile_y == w.tile_y,
        inputs.codec == w.codec,
        inputs.generation == w.generation,
        inputs.pass == w.pass_idx,
        inputs.timestamp_us == timestamp_us,
        0 <= i < n <= 0xFFFF,
        w.payload.len() <= 0xFFFF,
    ensures
        names_piece(
            Ok((inputs.datagram_header(i, n), inputs.tile_header(w.payload.len()), c)),
            w,
            seq,
            timestamp_us,
            i,
            n,
        ),
{
}

proof fn work_reassembles(w: WorkView, seq: u32, timestamp_us: u32, max_frag: nat)
    requires
        max_frag > 0,
        w.generation < 16,
        w.pass_idx < 16,
    ensures
        payloads_of(dispatch::work_datagrams(w, seq, timestamp_us, max_frag)) == w.payload,
{
    let d = dispatch::work_datagrams(w, seq, timestamp_us, max_frag);
    let inputs = protocol::TileFragmentInputs {
        frame_seq: protocol::tile_flagged(seq),
        tile_x: w.tile_x,
        tile_y: w.tile_y,
        codec: w.codec,
        generation: w.generation,
        pass: w.pass_idx,
        timestamp_us,
    };
    let n = protocol::chunk_count(w.payload.len(), max_frag);
    let parts = Seq::new(d.len(), |j: int| protocol::tile_datagram_parts(d[j])->Ok_0.2);
    let whole = protocol::chunks(w.payload, max_frag);
    assert forall|j: int| 0 <= j < n implies #[trigger] parts[j] == whole[j] by {
        protocol::tile_fragment_decodes(inputs, w.payload, max_frag, j);
        assert(d[j] == inputs.fragment(w.payload, max_frag, j));
    }
    assert(parts =~= whole);
    protocol::fragments_reassemble(w.payload, max_frag);
}

/// The bytes behind the headers of tile datagrams, in order.
pub open spec fn payloads_of(d: Seq<Seq<u8>>) -> Seq<u8> {
    protocol::concat(Seq::new(d.len(), |j: int| protocol::tile_datagram_parts(d[j])->Ok_0.2))
}

proof fn few_chunks(len: nat, max: nat)
    requires
        max > 0,
        len <= 0xFFFF,
    ensures
        protocol::chunk_count(len, max) <= 0xFFFF,
{
    if len > 0 {
        assert((len - 1) / max as int <= len - 1) by (nonlinear_arith)
            requires
                max > 0,
                len > 0,
        ;
    }
}

/// The datagrams of several pieces are those of each in turn.
pub proof fn pieces_go_out_in_turn(
    a: Seq<WorkView>,
    b: Seq<WorkView>,
    w: WorkView,
    seq: u32,
    timestamp_us: u32,
    max_frag: nat,
)
    ensures
        dispatch::all_datagrams(a + b, seq, timestamp_us, max_frag) == dispatch::all_datagrams(
            a,
            seq,
            timestamp_us,
            max_frag,
        ) + dispatch::all_datagrams(b, seq, timestamp_us, max_frag),
        dispatch::all_datagrams(seq![w], seq, timestamp_us, max_frag) == dispatch::work_datagrams(
            w,
            seq,
            timestamp_us,
            max_frag,
        ),
    decreases b.len(),
{
    reveal_with_fuel(dispatch::all_datagrams, 2);
    assert(seq![w].drop_last() =~= Seq::empty());
    assert(seq![w].last() == w);
    assert(dispatch::all_datagrams(seq![w], seq, timestamp_us, max_frag)
        =~= dispatch::work_datagrams(w, seq, timestamp_us, max_frag));
    let f = |s: Seq<WorkView>| dispatch::all_datagrams(s, seq, timestamp_us, max_frag);
    if b.len() == 0 {
        assert(a + b =~= a);
        assert(f(a) + f(b) =~= f(a));
    } else {
        assert((a + b).drop_last() =~= a + b.drop_last());
        assert((a + b).last() == b.last());
        pieces_go_out_in_turn(a, b.drop_last(), w, seq, timestamp_us, max_frag);
        assert(f(a + b) =~= f(a) + f(b));
    }
}

/// What is remembered of a piece: its tile, version, pass and codec, and the
/// palette that a palette run begins with.
pub proof fn coverage_names_the_piece(w: WorkView)
    ensures
        ({
            let c = dispatch::coverage_of(w);
            &&& c.tile_x == w.tile_x && c.tile_y == w.tile_y
            &&& c.generation == w.generation
            &&& c.pass_idx == w.pass_idx
            &&& c.codec == w.codec
            &&& (w.codec == Codec::PalRle && w.payload.len() >= 2) ==> c.palette_id == Some(
                w.payload[1],
            )
            &&& (w.codec != Codec::PalRle || w.payload.len() < 2) ==> c.palette_id is None
        }),
{
}

/// The round-trip time that counts is the smallest, and 20 ms without any.
pub proof fn the_smallest_round_trip_counts(rtts: Seq<Duration>, i: int)
    ensures
        rtts.len() == 0 ==> dispatch::least_rtt(rtts).nanos == 20_000_000,
        0 <= i < rtts.len() ==> dispatch::least_rtt(rtts).nanos <= rtts[i].nanos,
        rtts.len() > 0 ==> rtts.contains(dispatch::least_rtt(rtts)),
    decreases rtts.len(),
{
    if rtts.len() == 1 {
        assert(rtts[0] == dispatch::least_rtt(rtts));
    } else if rtts.len() > 1 {
        let front = rtts.drop_last();
        the_smallest_round_trip_counts(front, i);
        let least = dispatch::least_rtt(front);
        if least.nanos <= rtts.last().nanos {
            let j = choose|j: int| 0 <= j < front.len() && front[j] == least;
            assert(rtts[j] == least);
        } else {
            assert(rtts[rtts.len() - 1] == dispatch::least_rtt(rtts));
        }
    }
}

/// Before tiles are queued, the scheduler takes over the grid and the round
/// trip of the frame: another grid starts over, the same grid stays.
pub proof fn the_grid_of_the_frame_counts(s: EmitState, cols: u32, rows: u32, rtt: Duration)
    ensures
        ({
            let q = dispatch::synced(s, cols, rows, rtt);
            &&& q.sched.cols == cols && q.sched.rows == rows
            &&& q.sched.rtt == rtt
            &&& q.sched.delivery == s.sched.delivery
            &&& s.sched.cols == cols && s.sched.rows == rows ==> {
                &&& q.sched.gens == s.sched.gens && q.sched.acks == s.sched.acks
                &&& q.sched.priority == s.sched.priority && q.sched.refinement
                    == s.sched.refinement
            }
            &&& s.sched.cols != cols || s.sched.rows != rows ==> {
                &&& q.sched.priority.len() == 0 && q.sched.refinement.len() == 0
                &&& q.sched.gens.len() == cols * rows
                &&& forall|i: int| 0 <= i < cols * rows ==> #[trigger] q.sched.gens[i] == 0
            }
            &&& q.tiles == s.tiles && q.palettes == s.palettes && q.coverage == s.coverage
            &&& q.released == s.released
        }),
{
    assert(cols * rows >= 0) by (nonlinear_arith);
}

// ---------------------------------------------------------------------------
// Acknowledgements
// ---------------------------------------------------------------------------

/// What the delivery of a piece settles: a refinement pass is remembered,
/// other work is finished in the queues, and the palette it carried is
/// delivered and released.
pub proof fn a_delivery_settles_its_piece(s: EmitState, c: FragmentCoverage)
    requires
        s.palettes.wf(),
        c.pass_idx < 16,
    ensures
        ({
            let d = s.delivered(c);
            let key = scheduler::ack_key(c.tile_x, c.tile_y, c.generation);
            &&& c.codec == Codec::Cdf53 ==> {
                &&& d.sched.priority == s.sched.priority && d.sched.refinement
                    == s.sched.refinement
                &&& d.sched.acks.dom().contains(key)
                &&& crate::bits::has_bit(d.sched.acks[key], c.pass_idx)
            }
            &&& c.codec != Codec::Cdf53 ==> {
                &&& d.sched.acks == s.sched.acks && d.sched.delivery == s.sched.delivery
                &&& sched_laws::one_done(
                    s.sched.priority,
                    d.sched.priority,
                    c.tile_x,
                    c.tile_y,
                    c.generation,
                    c.pass_idx,
                )
                &&& d.sched.priority == s.sched.priority ==> sched_laws::one_done(
                    s.sched.refinement,
                    d.sched.refinement,
                    c.tile_x,
                    c.tile_y,
                    c.generation,
                    c.pass_idx,
                )
                &&& d.sched.priority != s.sched.priority ==> d.sched.refinement
                    == s.sched.refinement
            }
            &&& d.sched.gens == s.sched.gens
            &&& c.palette_id is Some ==> {
                &&& d.palettes.delivered[c.palette_id->0 as int]
                &&& d.released == s.released.push(c.palette_id->0)
                &&& forall|i: int|
                    0 <= i < 256 && i != c.palette_id->0 ==> #[trigger] d.palettes.delivered[i]
                        == s.palettes.delivered[i]
            }
            &&& c.palette_id is None ==> d.palettes == s.palettes && d.released == s.released
            &&& d.coverage == s.coverage
            &&& d.tiles == s.tiles
        }),
{
    sched_laws::an_ack_finishes_one_piece(
        s.sched,
        c.tile_x,
        c.tile_y,
        c.generation,
        c.pass_idx,
    );
    sched_laws::a_pass_ack_is_counted_once(
        s.sched,
        c.tile_x,
        c.tile_y,
        c.generation,
        c.pass_idx,
    );
}

/// Deliveries settle one after the other.
pub proof fn deliveries_settle_in_turn(
    s: EmitState,
    a: Seq<FragmentCoverage>,
    b: Seq<FragmentCoverage>,
    c: FragmentCoverage,
)
    ensures
        s.all_delivered(a + b) == s.all_delivered(a).all_delivered(b),
        s.all_delivered(seq![c]) == s.delivered(c),
        s.all_delivered(Seq::empty()) == s,
    decreases b.len(),
{
    reveal_with_fuel(EmitState::all_delivered, 2);
    assert(seq![c].drop_last() =~= Seq::empty());
    assert(seq![c].last() == c);
    if b.len() == 0 {
        assert(a + b =~= a);
    } else {
        assert((a + b).drop_last() =~= a + b.drop_last());
        assert((a + b).last() == b.last());
        deliveries_settle_in_turn(s, a, b.drop_last(), c);
    }
}

/// An acknowledgement settles the pieces that its datagram carried and
/// forgets them; one of an unknown datagram changes nothing, and no other
/// datagram's pieces are touched.
pub proof fn an_ack_settles_its_datagram(s: EmitState, e: AckEntry, other: u64)
    requires
        s.coverage.wf(),
    ensures
        ({
            let n = fragment_coverage::number_of((e.frame_seq, e.tile_x, e.tile_y, e.pass_idx));
            let a = s.acknowledged(e);
            &&& !s.coverage.entries.dom().contains(n) ==> a == s
            &&& s.coverage.entries.dom().contains(n) ==> {
                &&& !a.coverage.entries.dom().contains(n)
                &&& other != n ==> a.coverage.entries.dom().contains(other)
                    == s.coverage.entries.dom().contains(other)
                &&& other != n && s.coverage.entries.dom().contains(other)
                    ==> a.coverage.entries[other] == s.coverage.entries[other]
                &&& a.tiles == s.tiles
                &&& a.sched == s.all_delivered(s.coverage.entries[n]).sched
                &&& a.palettes == s.all_delivered(s.coverage.entries[n]).palettes
                &&& a.released == s.all_delivered(s.coverage.entries[n]).released
            }
        }),
{
    let n = fragment_coverage::number_of((e.frame_seq, e.tile_x, e.tile_y, e.pass_idx));
    if s.coverage.entries.dom().contains(n) {
        let t = EmitState { coverage: s.coverage.without(n), ..s };
        settles_alike(s, t, s.coverage.entries[n]);
    }
}

/// What a delivery settles does not depend on what is still covered.
proof fn settles_alike(s: EmitState, t: EmitState, list: Seq<FragmentCoverage>)
    requires
        s.sched == t.sched,
        s.tiles == t.tiles,
        s.palettes == t.palettes,
        s.released == t.released,
    ensures
        s.all_delivered(list).sched == t.all_delivered(list).sched,
        s.all_delivered(list).palettes == t.all_delivered(list).palettes,
        s.all_delivered(list).released == t.all_delivered(list).released,
        t.all_delivered(list).tiles == t.tiles,
        s.all_delivered(list).tiles == s.tiles,
        t.all_delivered(list).coverage == t.coverage,
    decreases list.len(),
{
    if list.len() > 0 {
        settles_alike(s, t, list.drop_last());
    }
}

/// Acknowledgements settle one after the other.
pub proof fn acks_settle_in_turn(s: EmitState, a: Seq<AckEntry>, b: Seq<AckEntry>, e: AckEntry)
    ensures
        s.all_acknowledged(a + b) == s.all_acknowledged(a).all_acknowledged(b),
        s.all_acknowledged(seq![e]) == s.acknowledged(e),
        s.all_acknowledged(Seq::empty()) == s,
    decreases b.len(),
{
    reveal_with_fuel(EmitState::all_acknowledged, 2);
    assert(seq![e].drop_last() =~= Seq::empty());
    assert(seq![e].last() == e);
    if b.len() == 0 {
        assert(a + b =~= a);
    } else {
        assert((a + b).drop_last() =~= a + b.drop_last());
        assert((a + b).last() == b.last());
        acks_settle_in_turn(s, a, b.drop_last(), e);
    }
}

// ---------------------------------------------------------------------------
// Codec states
// ---------------------------------------------------------------------------

/// Refinement is only in force where it is switched on and supported;
/// elsewhere a refined tile counts as a block-compressed one.
pub proof fn refinement_is_gated(state: CodecState, enabled: bool, supported: bool)
    ensures
        state !is Cdf53 ==> tiles::gated(state, enabled, supported) == state,
        enabled && supported ==> tiles::gated(state, enabled, supported) == state,
        state is Cdf53 && !enabled ==> tiles::gated(state, enabled, supported) == CodecState::Bc1,
        state is Cdf53 && !supported ==> tiles::gated(state, enabled, supported)
            == CodecState::Bc1,
{
}

/// A dirty tile has the measurements taken at its own place, colours counted
/// up to 65535; its codec state is not touched by them.
pub proof fn a_tile_has_its_own_measurements(
    table: Seq<TileState>,
    grid_cols: u32,
    grid_rows: u32,
    dirty: Seq<(u32, u32)>,
    cols: u32,
    analysis: Seq<TileAnalysis>,
    x: u32,
    y: u32,
)
    requires
        table.len() == grid_cols * grid_rows,
        forall|i: int|
            0 <= i < dirty.len() ==> (#[trigger] dirty[i]).0 < grid_cols && dirty[i].1 < grid_rows,
        x < grid_cols,
        y < grid_rows,
        y * cols + x < analysis.len(),
        dirty.contains((x, y)),
    ensures
        ({
            let after = tiles::populated(table, grid_cols, dirty, cols, analysis);
            let t = after[y * grid_cols + x];
            let m = analysis[y * cols + x];
            &&& after.len() == table.len()
            &&& t.edge_density_thou == m.edge_density_thou
            &&& m.count <= 0xFFFF ==> t.unique_colors == m.count
            &&& m.count > 0xFFFF ==> t.unique_colors == 0xFFFF
            &&& t.codec_state == table[y * grid_cols + x].codec_state
            &&& t.already_escalated == table[y * grid_cols + x].already_escalated
        }),
    decreases dirty.len(),
{
    let front = dirty.drop_last();
    assert forall|i: int| 0 <= i < front.len() implies (#[trigger] front[i]).0 < grid_cols
        && front[i].1 < grid_rows by {
        assert(front[i] == dirty[i]);
    }
    populated_keeps(table, grid_cols, grid_rows, front, cols, analysis, x, y);
    tiles::place_is_inside(grid_cols, grid_rows, x, y);
    let last = dirty[dirty.len() - 1];
    tiles::place_is_inside(grid_cols, grid_rows, last.0, last.1);
    if last != (x, y) {
        let i = choose|i: int| 0 <= i < dirty.len() && dirty[i] == (x, y);
        assert(dirty.drop_last()[i] == (x, y));
        a_tile_has_its_own_measurements(
            table,
            grid_cols,
            grid_rows,
            dirty.drop_last(),
            cols,
            analysis,
            x,
            y,
        );
        if tiles::place(grid_cols, last.0, last.1) == tiles::place(grid_cols, x, y) {
            tiles::places_differ(grid_cols, last.0, last.1, x, y);
        }
    }
}

proof fn populated_keeps(
    table: Seq<TileState>,
    grid_cols: u32,
    grid_rows: u32,
    dirty: Seq<(u32, u32)>,
    cols: u32,
    analysis: Seq<TileAnalysis>,
    x: u32,
    y: u32,
)
    requires
        table.len() == grid_cols * grid_rows,
        forall|i: int|
            0 <= i < dirty.len() ==> (#[trigger] dirty[i]).0 < grid_cols && dirty[i].1 < grid_rows,
        x < grid_cols,
        y < grid_rows,
    ensures
        ({
            let after = tiles::populated(table, grid_cols, dirty, cols, analysis);
            let at = tiles::place(grid_cols, x, y);
            &&& after.len() == table.len()
            &&& after[at].codec_state == table[at].codec_state
            &&& after[at].already_escalated == table[at].already_escalated
        }),
    decreases dirty.len(),
{
    tiles::place_is_inside(grid_cols, grid_rows, x, y);
    if dirty.len() > 0 {
        let front = dirty.drop_last();
        assert forall|i: int| 0 <= i < front.len() implies (#[trigger] front[i]).0 < grid_cols
            && front[i].1 < grid_rows by {
            assert(front[i] == dirty[i]);
        }
        populated_keeps(table, grid_cols, grid_rows, front, cols, analysis, x, y);
        let last = dirty[dirty.len() - 1];
        tiles::place_is_inside(grid_cols, grid_rows, last.0, last.1);
    }
}

/// Coverage is remembered under the frame number that an acknowledgement names:
/// that of the datagram without its first bit.
pub proof fn acks_name_the_frame_without_its_flag(seq: u32)
    ensures
        dispatch::acked_frame(seq) + 0x8000_0000 == protocol::tile_flagged(seq),
        dispatch::acked_frame(protocol::tile_flagged(seq)) == dispatch::acked_frame(seq),
{
}

/// Dirty tiles are taken in order.
pub proof fn dirty_tiles_keep_their_order(list: Seq<dispatch::DirtyTile>, i: int)
    requires
        0 <= i < list.len(),
    ensures
        dispatch::dirty_views(list).len() == list.len(),
        dispatch::dirty_views(list)[i] == list[i]@,
{
}

/// A dispatch holds nothing back: short of a budget that no frame reaches, every
/// due piece goes out and is covered, and nothing waits for refinement.
pub proof fn a_dispatch_holds_nothing_back(
    before: EmitState,
    after: EmitState,
    rules: EmitRules,
    dirty: Seq<DirtyView>,
    cols: u32,
    rows: u32,
    rtt: Duration,
    now: Instant,
    works: Seq<WorkView>,
    seq: u32,
    i: int,
)
    requires
        dispatch::dispatched(before, after, rules, dirty, cols, rows, rtt, now, works, seq),
        dispatch::synced(before, cols, rows, rtt).all_queued(
            dirty,
            rules,
            now,
        ).sched.delivery.fraction_permille <= 200,
        50 <= dispatch::synced(before, cols, rows, rtt).all_queued(
            dirty,
            rules,
            now,
        ).sched.delivery.fraction_permille,
        2 * rtt.nanos <= u128::MAX,
        dispatch::synced(before, cols, rows, rtt).all_queued(dirty, rules, now).sched.rtt == rtt,
        crate::scheduler::work::total_bytes(works) < 0x100_0000,
        forall|k: int|
            0 <= k < after.sched.refinement.len() ==> (
            #[trigger] after.sched.refinement[k]).payload.len() < 0x100_0000,
    ensures
        after.sched.refinement.len() == 0,
        0 <= i < after.sched.priority.len() && after.sched.priority[i].state == WorkState::Pending
            ==> after.sched.priority[i].last_sent_at == Some(now),
        after.sched.cols == cols && after.sched.rows == rows && after.sched.rtt == rtt,
        after.palettes == dispatch::synced(before, cols, rows, rtt).all_queued(
            dirty,
            rules,
            now,
        ).palettes,
        after.released == dispatch::synced(before, cols, rows, rtt).all_queued(
            dirty,
            rules,
            now,
        ).released,
        after.tiles == dispatch::synced(before, cols, rows, rtt).all_queued(
            dirty,
            rules,
            now,
        ).tiles,
{
    let q = dispatch::synced(before, cols, rows, rtt).all_queued(dirty, rules, now);
    let budget = usize::MAX as nat;
    let n = sched_laws::a_tick_shares_its_budget(q.sched, after.sched, works, budget, now);
    let f = q.sched.delivery.fraction_permille;
    let share = budget * f / 1000;
    assert(budget >= 0xFFFF_FFFF);
    assert(share >= budget / 20 && share <= budget / 5) by (nonlinear_arith)
        requires
            50 <= f <= 200,
            share == budget * f / 1000,
    ;
    assert(works =~= works.take(n) + works.skip(n));
    sched_laws::bytes_add_up(works.take(n), works.skip(n), works[0]);
    assert(works.skip(0) =~= works);
    if after.sched.refinement.len() > 0 {
        let cap = if q.sched.priority.len() == 0 {
            budget as int
        } else {
            share as int
        };
        if q.sched.refinement.len() > 0 {
            let sent = if q.sched.priority.len() == 0 {
                works
            } else {
                works.skip(n)
            };
            assert(sched_laws::fills_strictly(after.sched, sent, cap));
            let k = choose|k: int|
                0 <= k < after.sched.refinement.len() && crate::scheduler::work::total_bytes(sent) + (
                #[trigger] after.sched.refinement[k]).payload.len() > cap;
            assert(after.sched.refinement[k].payload.len() < 0x100_0000);
        } else {
            let m = sched_laws::a_tick_loses_nothing(q.sched, after.sched, works, budget, now);
            assert(q.sched.refinement =~= Seq::empty());
            seqs::filter_empty(|w: WorkView| w.is_live());
            assert(false);
        }
    }
    if 0 <= i < after.sched.priority.len() && after.sched.priority[i].state == WorkState::Pending
        && after.sched.priority[i].last_sent_at != Some(now) {
        if q.sched.refinement.len() == 0 {
            assert(sched_laws::fills_softly(
                after.sched,
                works,
                budget as int,
                now,
                2 * rtt.nanos as int,
            ));
        } else if q.sched.priority.len() == 0 {
            let m = sched_laws::a_tick_loses_nothing(q.sched, after.sched, works, budget, now);
            assert(q.sched.priority =~= Seq::empty());
            seqs::filter_empty(|w: WorkView| w.is_live());
            assert(false);
        } else {
            assert(sched_laws::fills_softly(
                after.sched,
                works.take(n),
                budget - share,
                now,
                2 * rtt.nanos as int,
            ));
        }
    }
}

/// What a dispatch sends is remembered: each piece is found again under the
/// frame it went out in, its tile and its pass.
pub proof fn dispatched_work_is_remembered(
    before: EmitState,
    after: EmitState,
    rules: EmitRules,
    dirty: Seq<DirtyView>,
    cols: u32,
    rows: u32,
    rtt: Duration,
    now: Instant,
    works: Seq<WorkView>,
    seq: u32,
    i: int,
)
    requires
        dispatch::dispatched(before, after, rules, dirty, cols, rows, rtt, now, works, seq),
        ({
            let c = dispatch::synced(before, cols, rows, rtt).all_queued(dirty, rules, now).coverage;
            &&& c.wf()
            &&& works.len() <= c.capacity
            &&& acks::work_numbers(works, seq).no_duplicates()
            &&& forall|k: int|
                0 <= k < works.len() ==> !c.entries.dom().contains(
                    #[trigger] acks::work_numbers(works, seq)[k],
                )
        }),
        0 <= i < works.len(),
    ensures
        ({
            let n = fragment_coverage::number_of(
                ((seq % 0x8000_0000) as u32, works[i].tile_x, works[i].tile_y, works[i].pass_idx),
            );
            let found = after.coverage.entries[n];
            &&& after.coverage.entries.dom().contains(n)
            &&& found.len() == 1
            &&& found[0].tile_x == works[i].tile_x && found[0].tile_y == works[i].tile_y
            &&& found[0].generation == works[i].generation
            &&& found[0].pass_idx == works[i].pass_idx
            &&& found[0].codec == works[i].codec
        }),
{
    let c = dispatch::synced(before, cols, rows, rtt).all_queued(dirty, rules, now).coverage;
    acks::emitted_work_is_found_again(c, works, seq, i);
}

} // verus!
