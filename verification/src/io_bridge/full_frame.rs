//! Emission of whole video frames, with parity, and the fragments kept to
//! answer reports of missing ones.
use crate::fec;
use crate::fec::{generate_parity, PARITY_HEADER_SIZE};
use crate::maps::key_list;
use crate::protocol;
use crate::protocol::{
    build_frame_parity_datagram, fragment_frame, max_frame_fragment_payload, FrameHeader,
    NackMessage, FRAME_HEADER_SIZE,
};
use crate::time::Duration;
use crate::wire::copy_range;
use std::collections::HashMap;
use vstd::prelude::*;
use vstd::slice::slice_subrange;

verus! {

broadcast use {vstd::slice::group_slice_axioms, vstd::std_specs::hash::group_hash_axioms};

/// Time between two frames, in nanoseconds.  A fragment is sent again only if
/// it can arrive before the next frame.
pub const FRAME_INTERVAL_NANOS: u128 = 16_667_000;

/// How many frames before the present one are kept.
pub const FRAMES_KEPT: u32 = 3;

/// The number under which a fragment is kept.
pub open spec fn fragment_key(frame_seq: u32, frag_idx: u16) -> u64 {
    (frame_seq * 0x1_0000 + frag_idx) as u64
}

fn key_of(frame_seq: u32, frag_idx: u16) -> (k: u64)
    ensures
        k == fragment_key(frame_seq, frag_idx),
        k < 0x1_0000_0000_0000,
{
    frame_seq as u64 * 0x1_0000 + frag_idx as u64
}

/// The frame of a fragment's number is at most [`FRAMES_KEPT`] before `seq`,
/// across a wrap of the numbering too.
pub open spec fn is_recent(key: u64, seq: u32) -> bool {
    (key / 0x1_0000 - seq + FRAMES_KEPT) % 0x1_0000_0000 <= FRAMES_KEPT
}

/// The fragments of recent frames.
pub open spec fn recent_only(m: Map<u64, Seq<u8>>, seq: u32) -> Map<u64, Seq<u8>> {
    m.restrict(Set::new(|k: u64| is_recent(k, seq)))
}

/// With the fragments that these datagrams carry.
pub open spec fn with_fragments(m: Map<u64, Seq<u8>>, datagrams: Seq<Seq<u8>>) -> Map<u64, Seq<u8>>
    decreases datagrams.len(),
{
    if datagrams.len() == 0 {
        m
    } else {
        let before = with_fragments(m, datagrams.drop_last());
        let dg = datagrams.last();
        if dg.len() >= FRAME_HEADER_SIZE {
            let h = FrameHeader::parse(dg);
            before.insert(fragment_key(h.frame_seq, h.frag_idx), dg)
        } else {
            before
        }
    }
}

/// The contents of buffers.
pub open spec fn contents(list: Seq<Vec<u8>>) -> Seq<Seq<u8>> {
    list.map_values(|b: Vec<u8>| b@)
}

/// Fragments of the last frames, by frame and index.
#[derive(Debug)]
pub struct RecentFragments {
    fragments: HashMap<u64, Vec<u8>>,
}

impl View for RecentFragments {
    type V = Map<u64, Seq<u8>>;

    closed spec fn view(&self) -> Map<u64, Seq<u8>> {
        self.fragments@.map_values(|b: Vec<u8>| b@)
    }
}

impl RecentFragments {
    /// Every number is that of a frame and an index.
    pub open spec fn wf(&self) -> bool {
        forall|k: u64| #[trigger] self@.dom().contains(k) ==> k < 0x1_0000_0000_0000
    }

    pub fn new() -> (r: Self)
        ensures
            r.wf(),
            r@ == Map::<u64, Seq<u8>>::empty(),
    {
        let r = RecentFragments { fragments: HashMap::new() };
        assert(r@ =~= Map::<u64, Seq<u8>>::empty());
        r
    }

    /// Forgets the fragments of frames that are no longer recent.
    fn forget_old(&mut self, seq: u32)
        requires
            old(self).wf(),
        ensures
            final(self).wf(),
            final(self)@ == recent_only(old(self)@, seq),
    {
        let keys: Vec<u64> = key_list(&self.fragments);
        let ghost m = self@;
        let ghost all = keys@;
        let n: usize = keys.len();
        let mut i: usize = 0;
        proof {
            assert(m.dom() =~= self.fragments@.dom());
            assert forall|k: u64| m.dom().contains(k) <==> all.contains(k) by {
                assert(all.to_set().contains(k) <==> all.contains(k));
            }
        }
        while i < n
            invariant
                i <= n,
                n == keys@.len(),
                all == keys@,
                all.no_duplicates(),
                self.wf(),
                forall|k: u64| #[trigger] m.dom().contains(k) <==> all.contains(k),
                forall|k: u64| #[trigger] m.dom().contains(k) ==> k < 0x1_0000_0000_0000,
                forall|k: u64| #[trigger]
                    self@.dom().contains(k) <==> m.dom().contains(k) && !(all.take(
                        i as int,
                    ).contains(k) && !is_recent(k, seq)),
                forall|k: u64| #[trigger] self@.dom().contains(k) ==> self@[k] == m[k],
            decreases n - i,
        {
            let k: u64 = keys[i];
            proof {
                assert(all.contains(k));
                assert(m.dom().contains(k));
            }
            let frame: u32 = (k / 0x1_0000) as u32;
            let back: u32 = frame.wrapping_sub(seq.wrapping_sub(FRAMES_KEPT));
            proof {
                back_is_distance(frame, seq);
            }
            let ghost before = self@;
            if back > FRAMES_KEPT {
                let _ = self.fragments.remove(&k);
                assert(self@ =~= before.remove(k));
            }
            proof {
                let upto = all.take(i + 1);
                assert forall|x: u64| upto.contains(x) <==> all.take(i as int).contains(x) || x
                    == k by {
                    if all.take(i as int).contains(x) {
                        let j = choose|j: int| 0 <= j < i && all.take(i as int)[j] == x;
                        assert(upto[j] == x);
                    }
                    assert(upto[i as int] == k);
                    if upto.contains(x) && x != k {
                        let j = choose|j: int| 0 <= j < upto.len() && upto[j] == x;
                        assert(all.take(i as int)[j] == x);
                    }
                }
            }
            i = i + 1;
        }
        assert(all.take(n as int) =~= all);
        assert(self@ =~= recent_only(m, seq));
    }

    /// Keeps the fragments of a frame that was just sent, and forgets those of
    /// frames that are no longer recent.
    pub fn remember(&mut self, seq: u32, datagrams: &Vec<Vec<u8>>)
        requires
            old(self).wf(),
        ensures
            final(self).wf(),
            final(self)@ == with_fragments(
                recent_only(old(self)@, seq),
                contents(datagrams@),
            ),
    {
        self.forget_old(seq);
        let ghost start = self@;
        let ghost all = contents(datagrams@);
        let n: usize = datagrams.len();
        let mut i: usize = 0;
        assert(all.take(0) =~= Seq::empty());
        while i < n
            invariant
                i <= n,
                n == datagrams@.len(),
                all == contents(datagrams@),
                self.wf(),
                self@ == with_fragments(start, all.take(i as int)),
            decreases n - i,
        {
            let dg = &datagrams[i];
            let ghost before = self@;
            proof {
                assert(all.take(i + 1).drop_last() =~= all.take(i as int));
                assert(all.take(i + 1).last() == dg@);
            }
            if let Ok(h) = FrameHeader::decode(dg.as_slice()) {
                let copy: Vec<u8> = copy_range(dg.as_slice(), 0, dg.len());
                assert(copy@ =~= dg@);
                let k: u64 = key_of(h.frame_seq, h.frag_idx);
                let _ = self.fragments.insert(k, copy);
                assert(self@ =~= before.insert(k, dg@));
            }
            i = i + 1;
        }
        assert(all.take(n as int) =~= all);
    }

    /// The fragment that a report misses, if it is kept and the path is fast
    /// enough for it to arrive before the next frame.
    pub fn handle_nack(&self, nack: &NackMessage, rtt: Duration) -> (r: Option<Vec<u8>>)
        ensures
            ({
                let k = fragment_key(nack.frame_seq, nack.frag_idx);
                match r {
                    Some(dg) => rtt.nanos < FRAME_INTERVAL_NANOS && self@.dom().contains(k) && dg@
                        == self@[k],
                    None => !(rtt.nanos < FRAME_INTERVAL_NANOS && self@.dom().contains(k)),
                }
            }),
    {
        if rtt.nanos >= FRAME_INTERVAL_NANOS {
            return None;
        }
        let k: u64 = key_of(nack.frame_seq, nack.frag_idx);
        assert(self@.dom() =~= self.fragments@.dom());
        match self.fragments.get(&k) {
            Some(dg) => {
                let copy: Vec<u8> = copy_range(dg.as_slice(), 0, dg.len());
                assert(copy@ =~= dg@);
                Some(copy)
            },
            None => None,
        }
    }
}

/// How far back a frame is, with wrapping numbers.
proof fn back_is_distance(frame: u32, seq: u32)
    ensures
        frame.wrapping_sub(seq.wrapping_sub(FRAMES_KEPT)) == (frame - seq + FRAMES_KEPT)
            % 0x1_0000_0000,
{
}

/// The payloads of datagrams, behind their headers.
pub open spec fn frame_payloads(datagrams: Seq<Seq<u8>>) -> Seq<Seq<u8>> {
    datagrams.map_values(|dg: Seq<u8>| dg.skip(FRAME_HEADER_SIZE as int))
}

/// The source datagrams of a frame.
pub open spec fn frame_sources(
    seq: u32,
    timestamp_us: u32,
    is_keyframe: bool,
    payload: Seq<u8>,
    max: nat,
) -> Seq<Seq<u8>> {
    Seq::new(
        protocol::chunk_count(payload.len(), max),
        |i: int| protocol::frame_fragment(seq, timestamp_us, is_keyframe, payload, max, i),
    )
}

/// The parity datagrams of a frame: none for a single fragment.
pub open spec fn frame_parities(
    seq: u32,
    timestamp_us: u32,
    is_keyframe: bool,
    sources: Seq<Seq<u8>>,
    fec_k: nat,
) -> Seq<Seq<u8>> {
    if sources.len() <= 1 || fec_k == 0 {
        Seq::empty()
    } else {
        fec::parities(
            frame_payloads(sources),
            fec_k,
            protocol::chunk_count(sources.len(), fec_k),
        ).map_values(
            |p: (u16, Seq<u8>)|
                protocol::frame_parity_datagram(
                    seq,
                    timestamp_us,
                    is_keyframe,
                    protocol::low16(sources.len() as int),
                    p.1,
                ),
        )
    }
}

/// Whether a frame of so many bytes has parity: it takes more than one
/// datagram, and more than one of its fragments make a group.
pub open spec fn has_parity(len: nat, max_dg_size: nat, fec_k: nat) -> bool {
    fec_k > 1 && len > max_dg_size - FRAME_HEADER_SIZE
}

/// Most bytes of payload in a fragment.  A parity has a header of its own in
/// front of its data, so fragments with parity leave room for that, as far as
/// there is any.
pub open spec fn fragment_room(len: nat, max_dg_size: nat, fec_k: nat) -> nat {
    let room = max_dg_size - FRAME_HEADER_SIZE;
    if has_parity(len, max_dg_size, fec_k) && room > PARITY_HEADER_SIZE {
        (room - PARITY_HEADER_SIZE) as nat
    } else {
        room as nat
    }
}

/// Emits a video frame: its fragments, for datagrams of at most
/// `max_dg_size`, then the parity of every group of `fec_k`.  The fragments
/// are kept for reports of missing ones.  No datagram is larger than asked
/// for, but for parity that no datagram of that size has room for.
pub fn emit_full_frame(
    recent: &mut RecentFragments,
    seq: u32,
    timestamp_us: u32,
    is_keyframe: bool,
    payload: &[u8],
    max_dg_size: usize,
    fec_k: usize,
) -> (out: Vec<Vec<u8>>)
    requires
        old(recent).wf(),
        max_dg_size > FRAME_HEADER_SIZE,
    ensures
        final(recent).wf(),
        ({
            let sources = frame_sources(
                seq,
                timestamp_us,
                is_keyframe,
                payload@,
                fragment_room(payload@.len(), max_dg_size as nat, fec_k as nat),
            );
            &&& contents(out@) == sources + frame_parities(
                seq,
                timestamp_us,
                is_keyframe,
                sources,
                fec_k as nat,
            )
            &&& final(recent)@ == with_fragments(recent_only(old(recent)@, seq), sources)
            &&& protocol::concat(frame_payloads(sources)) == payload@
        }),
        fec_k <= 1 || max_dg_size > FRAME_HEADER_SIZE + PARITY_HEADER_SIZE ==> forall|i: int|
            0 <= i < out@.len() ==> (#[trigger] out@[i])@.len() <= max_dg_size,
{
    let room: usize = max_frame_fragment_payload(max_dg_size);
    let max: usize = if fec_k > 1 && payload.len() > room && room > PARITY_HEADER_SIZE {
        room - PARITY_HEADER_SIZE
    } else {
        room
    };
    let ghost sources = frame_sources(seq, timestamp_us, is_keyframe, payload@, max as nat);
    let mut out: Vec<Vec<u8>> = fragment_frame(seq, timestamp_us, is_keyframe, payload, max);
    proof {
        assert(contents(out@) =~= sources);
        sources_have_headers(seq, timestamp_us, is_keyframe, payload@, max as nat);
    }
    recent.remember(seq, &out);
    let extra: Vec<Vec<u8>> = parity_datagrams(seq, timestamp_us, is_keyframe, &out, fec_k);
    append_all(&mut out, extra);
    proof {
        sources_join(seq, timestamp_us, is_keyframe, payload@, max as nat);
        if fec_k <= 1 || max_dg_size > FRAME_HEADER_SIZE + PARITY_HEADER_SIZE {
            frame_fits(
                seq,
                timestamp_us,
                is_keyframe,
                payload@,
                max as nat,
                max_dg_size as nat,
                fec_k as nat,
            );
            assert forall|i: int| 0 <= i < out@.len() implies (#[trigger] out@[i])@.len()
                <= max_dg_size by {
                assert(contents(out@)[i] == out@[i]@);
            }
        }
    }
    out
}

/// The payloads of a frame's fragments make up the frame, in order.
proof fn sources_join(
    seq: u32,
    timestamp_us: u32,
    is_keyframe: bool,
    payload: Seq<u8>,
    max: nat,
)
    requires
        max > 0,
    ensures
        frame_payloads(frame_sources(seq, timestamp_us, is_keyframe, payload, max))
            == protocol::chunks(payload, max),
        protocol::concat(
            frame_payloads(frame_sources(seq, timestamp_us, is_keyframe, payload, max)),
        ) == payload,
{
    let sources = frame_sources(seq, timestamp_us, is_keyframe, payload, max);
    assert(frame_payloads(sources) =~= protocol::chunks(payload, max)) by {
        assert forall|i: int| 0 <= i < sources.len() implies (#[trigger] frame_payloads(sources)[i])
            == protocol::chunk(payload, max, i) by {
            protocol::frame_fragment_decodes(seq, timestamp_us, is_keyframe, payload, max, i);
        }
    }
    protocol::fragments_reassemble(payload, max);
}

/// No datagram of a frame is larger than asked for.
proof fn frame_fits(
    seq: u32,
    timestamp_us: u32,
    is_keyframe: bool,
    payload: Seq<u8>,
    max: nat,
    max_dg_size: nat,
    fec_k: nat,
)
    requires
        max_dg_size > FRAME_HEADER_SIZE,
        max == fragment_room(payload.len(), max_dg_size, fec_k),
        fec_k <= 1 || max_dg_size > FRAME_HEADER_SIZE + PARITY_HEADER_SIZE,
    ensures
        ({
            let sources = frame_sources(seq, timestamp_us, is_keyframe, payload, max);
            let all = sources + frame_parities(seq, timestamp_us, is_keyframe, sources, fec_k);
            forall|i: int| 0 <= i < all.len() ==> (#[trigger] all[i]).len() <= max_dg_size
        }),
{
    let sources = frame_sources(seq, timestamp_us, is_keyframe, payload, max);
    let parities = frame_parities(seq, timestamp_us, is_keyframe, sources, fec_k);
    let all = sources + parities;
    sources_join(seq, timestamp_us, is_keyframe, payload, max);
    let parts = frame_payloads(sources);
    assert forall|i: int| 0 <= i < parts.len() implies (#[trigger] parts[i]).len() <= max by {
        protocol::fragment_lengths(payload, max, i);
    }
    assert forall|i: int| 0 <= i < sources.len() implies (#[trigger] sources[i]).len()
        <= FRAME_HEADER_SIZE + max by {
        protocol::frame_fragment_decodes(seq, timestamp_us, is_keyframe, payload, max, i);
        assert(parts[i] == sources[i].skip(FRAME_HEADER_SIZE as int));
    }
    if sources.len() > 1 && fec_k > 0 {
        let groups = protocol::chunk_count(sources.len(), fec_k);
        let list = fec::parities(parts, fec_k, groups);
        if fec_k == 1 {
            fec::no_parity_of_one(parts, groups);
        } else {
            protocol::chunk_bounds(payload.len(), max, 1);
            fec::parity_lengths(parts, fec_k, groups, max);
            assert forall|i: int| 0 <= i < parities.len() implies (#[trigger] parities[i]).len()
                <= max_dg_size by {
                let h = FrameHeader {
                    frame_seq: seq,
                    frag_idx: protocol::low16(sources.len() as int),
                    frag_total: protocol::low16(sources.len() as int),
                    timestamp_us,
                    flags: protocol::frame_flags(is_keyframe),
                    reserved: 0,
                };
                protocol::frame_header_round_trip(h, list[i].1);
                assert(parities[i] == h.bytes() + list[i].1);
                assert(list[i].1.len() <= PARITY_HEADER_SIZE + max);
            }
        }
    }
    assert forall|i: int| 0 <= i < all.len() implies (#[trigger] all[i]).len() <= max_dg_size by {
        if i < sources.len() {
            assert(all[i] == sources[i]);
        } else {
            assert(all[i] == parities[i - sources.len()]);
        }
    }
}

/// Every source datagram of a frame has a header.
proof fn sources_have_headers(
    seq: u32,
    timestamp_us: u32,
    is_keyframe: bool,
    payload: Seq<u8>,
    max: nat,
)
    ensures
        all_have_headers(frame_sources(seq, timestamp_us, is_keyframe, payload, max)),
{
    let sources = frame_sources(seq, timestamp_us, is_keyframe, payload, max);
    assert forall|j: int| 0 <= j < sources.len() implies (#[trigger] sources[j]).len()
        >= FRAME_HEADER_SIZE by {
        let h = protocol::frame_fragment_header(
            seq,
            timestamp_us,
            is_keyframe,
            j,
            protocol::chunk_count(payload.len(), max),
        );
        protocol::frame_header_round_trip(h, protocol::chunk(payload, max, j));
    }
}

pub open spec fn all_have_headers(datagrams: Seq<Seq<u8>>) -> bool {
    forall|j: int| 0 <= j < datagrams.len() ==> (#[trigger] datagrams[j]).len()
        >= FRAME_HEADER_SIZE
}

/// The payloads behind the headers.
fn payload_slices<'a>(datagrams: &'a Vec<Vec<u8>>) -> (out: Vec<&'a [u8]>)
    requires
        all_have_headers(contents(datagrams@)),
    ensures
        fec::contents(out@) == frame_payloads(contents(datagrams@)),
{
    let ghost sources = contents(datagrams@);
    let n: usize = datagrams.len();
    let mut out: Vec<&'a [u8]> = Vec::new();
    let mut i: usize = 0;
    while i < n
        invariant
            i <= n,
            n == datagrams@.len(),
            sources == contents(datagrams@),
            all_have_headers(sources),
            out@.len() == i,
            forall|j: int|
                0 <= j < i ==> (#[trigger] out@[j])@ == sources[j].skip(FRAME_HEADER_SIZE as int),
        decreases n - i,
    {
        let dg: &'a [u8] = datagrams[i].as_slice();
        assert(dg@ == sources[i as int]);
        let part = slice_subrange(dg, FRAME_HEADER_SIZE, dg.len());
        assert(part@ =~= sources[i as int].skip(FRAME_HEADER_SIZE as int));
        out.push(part);
        i = i + 1;
    }
    assert(fec::contents(out@) =~= frame_payloads(sources));
    out
}

/// The parity datagrams of a frame's source datagrams.
fn parity_datagrams(
    seq: u32,
    timestamp_us: u32,
    is_keyframe: bool,
    datagrams: &Vec<Vec<u8>>,
    fec_k: usize,
) -> (out: Vec<Vec<u8>>)
    requires
        all_have_headers(contents(datagrams@)),
    ensures
        contents(out@) == frame_parities(
            seq,
            timestamp_us,
            is_keyframe,
            contents(datagrams@),
            fec_k as nat,
        ),
{
    let ghost sources = contents(datagrams@);
    let ghost expected = frame_parities(seq, timestamp_us, is_keyframe, sources, fec_k as nat);
    let mut out: Vec<Vec<u8>> = Vec::new();
    let total: usize = datagrams.len();
    if total <= 1 {
        assert(contents(out@) =~= expected);
        return out;
    }
    let payloads: Vec<&[u8]> = payload_slices(datagrams);
    let parities: Vec<(u16, Vec<u8>)> = generate_parity(payloads.as_slice(), fec_k);
    proof {
        assert(fec::contents(payloads@).len() == payloads@.len());
        assert(frame_payloads(sources).len() == sources.len());
        assert(payloads@.len() == sources.len());
    }
    let frag_total: u16 = (total as u64 % 0x1_0000) as u16;
    let ghost pc = fec::parity_contents(parities@);
    let m: usize = parities.len();
    let mut j: usize = 0;
    while j < m
        invariant
            j <= m,
            m == parities@.len(),
            frag_total == protocol::low16(total as int),
            total == sources.len(),
            pc == fec::parity_contents(parities@),
            out@.len() == j,
            forall|k: int|
                0 <= k < j ==> (#[trigger] out@[k])@ == protocol::frame_parity_datagram(
                    seq,
                    timestamp_us,
                    is_keyframe,
                    protocol::low16(sources.len() as int),
                    pc[k].1,
                ),
        decreases m - j,
    {
        assert(pc[j as int].1 == parities@[j as int].1@);
        out.push(
            build_frame_parity_datagram(
                seq,
                timestamp_us,
                is_keyframe,
                frag_total,
                parities[j].1.as_slice(),
            ),
        );
        j = j + 1;
    }
    proof {
        assert(pc.len() == m);
        assert(contents(out@).len() == expected.len());
        assert forall|k: int| 0 <= k < expected.len() implies contents(out@)[k] == expected[k] by {
            assert(contents(out@)[k] == out@[k]@);
        }
        assert(contents(out@) =~= expected);
    }
    out
}

/// Appends buffers.
pub(crate) fn append_all(out: &mut Vec<Vec<u8>>, more: Vec<Vec<u8>>)
    ensures
        contents(final(out)@) == contents(old(out)@) + contents(more@),
{
    let ghost all = contents(more@);
    let n: usize = more.len();
    let mut i: usize = 0;
    assert(contents(out@) =~= contents(old(out)@) + all.take(0));
    while i < n
        invariant
            i <= n,
            n == more@.len(),
            all == contents(more@),
            contents(out@) == contents(old(out)@) + all.take(i as int),
        decreases n - i,
    {
        let copy: Vec<u8> = copy_range(more[i].as_slice(), 0, more[i].len());
        assert(copy@ =~= all[i as int]);
        let ghost before = contents(out@);
        out.push(copy);
        i = i + 1;
        assert(contents(out@) =~= before.push(all[i - 1]));
        assert(contents(out@) =~= contents(old(out)@) + all.take(i as int));
    }
    assert(all.take(n as int) =~= all);
}

/// A fragment that was just sent is there to be sent again, if it is the only
/// one under its number.
pub proof fn sent_fragment_is_kept(m: Map<u64, Seq<u8>>, datagrams: Seq<Seq<u8>>, i: int)
    requires
        0 <= i < datagrams.len(),
        forall|j: int|
            0 <= j < datagrams.len() ==> (#[trigger] datagrams[j]).len() >= FRAME_HEADER_SIZE,
        forall|j: int|
            i < j < datagrams.len() ==> fragment_key(
                FrameHeader::parse(#[trigger] datagrams[j]).frame_seq,
                FrameHeader::parse(datagrams[j]).frag_idx,
            ) != fragment_key(
                FrameHeader::parse(datagrams[i]).frame_seq,
                FrameHeader::parse(datagrams[i]).frag_idx,
            ),
    ensures
        ({
            let h = FrameHeader::parse(datagrams[i]);
            let k = fragment_key(h.frame_seq, h.frag_idx);
            with_fragments(m, datagrams).dom().contains(k) && with_fragments(m, datagrams)[k]
                == datagrams[i]
        }),
    decreases datagrams.len(),
{
    let init = datagrams.drop_last();
    assert(datagrams.last() == datagrams[datagrams.len() - 1]);
    if i < init.len() {
        assert(init[i] == datagrams[i]);
        assert forall|j: int| 0 <= j < init.len() implies (#[trigger] init[j]).len()
            >= FRAME_HEADER_SIZE by {
            assert(init[j] == datagrams[j]);
        }
        assert forall|j: int| i < j < init.len() implies fragment_key(
            FrameHeader::parse(#[trigger] init[j]).frame_seq,
            FrameHeader::parse(init[j]).frag_idx,
        ) != fragment_key(
            FrameHeader::parse(init[i]).frame_seq,
            FrameHeader::parse(init[i]).frag_idx,
        ) by {
            assert(init[j] == datagrams[j]);
        }
        sent_fragment_is_kept(m, init, i);
    }
}

} // verus!
