//! Sessions: how large a datagram may be, when the picture's size is
//! announced, and when a new client makes the bridge start over.
use crate::protocol;
use crate::protocol::{build_frame_dimensions_datagram, max_fragment_payload};
use std::collections::HashSet;
use vstd::prelude::*;

verus! {

broadcast use {vstd::slice::group_slice_axioms, vstd::std_specs::hash::group_hash_axioms};

/// Bytes reserved for the session number in front of every datagram.
pub const WT_VARINT_OVERHEAD: usize = 2;

/// How often the size of the picture is announced after it changed.
pub const FRAME_DIMENSIONS_RETRANSMITS: u8 = 10;

/// What is left of a datagram behind the session number.
pub open spec fn usable(size: usize) -> nat {
    if size >= WT_VARINT_OVERHEAD {
        (size - WT_VARINT_OVERHEAD) as nat
    } else {
        0
    }
}

/// What is left of it behind the headers of a tile datagram.
pub open spec fn tile_payload(size: usize) -> nat {
    let header = protocol::DATAGRAM_HEADER_SIZE + protocol::TILE_HEADER_SIZE;
    if usable(size) >= header {
        (usable(size) - header) as nat
    } else {
        0
    }
}

/// The smallest that any session allows, of those that allow datagrams.
pub open spec fn smallest(sizes: Seq<Option<usize>>, of: spec_fn(usize) -> nat) -> Option<nat>
    decreases sizes.len(),
{
    if sizes.len() == 0 {
        None
    } else {
        let before = smallest(sizes.drop_last(), of);
        match sizes.last() {
            None => before,
            Some(size) => match before {
                Some(n) if n <= of(size) => before,
                _ => Some(of(size)),
            },
        }
    }
}

/// Only if it is more than nothing.
pub open spec fn positive(n: Option<nat>) -> Option<nat> {
    if n == Some(0nat) {
        None
    } else {
        n
    }
}

pub open spec fn as_option_nat(n: Option<usize>) -> Option<nat> {
    match n {
        Some(x) => Some(x as nat),
        None => None,
    }
}

pub open spec fn usable_fn() -> spec_fn(usize) -> nat {
    |size: usize| usable(size)
}

pub open spec fn tile_payload_fn() -> spec_fn(usize) -> nat {
    |size: usize| tile_payload(size)
}

/// The largest datagram that every connected session takes, given the largest
/// of each; nothing without a session or where no byte is left.
pub fn compute_max_datagram_size(sizes: &[Option<usize>]) -> (r: Option<usize>)
    ensures
        as_option_nat(r) == positive(smallest(sizes@, usable_fn())),
{
    let n: usize = sizes.len();
    let mut least: Option<usize> = None;
    let mut i: usize = 0;
    assert(sizes@.take(0) =~= Seq::empty());
    while i < n
        invariant
            i <= n,
            n == sizes@.len(),
            as_option_nat(least) == smallest(sizes@.take(i as int), usable_fn()),
        decreases n - i,
    {
        assert(sizes@.take(i + 1).drop_last() =~= sizes@.take(i as int));
        if let Some(size) = sizes[i] {
            let room: usize = size.saturating_sub(WT_VARINT_OVERHEAD);
            assert(room == usable_fn()(size));
            least = match least {
                Some(prev) => if prev <= room {
                    Some(prev)
                } else {
                    Some(room)
                },
                None => Some(room),
            };
        }
        i = i + 1;
    }
    assert(sizes@.take(n as int) =~= sizes@);
    match least {
        Some(0) => None,
        other => other,
    }
}

/// The largest tile payload that every connected session takes; nothing
/// without a session or where no byte is left.
pub fn compute_max_fragment(sizes: &[Option<usize>]) -> (r: Option<usize>)
    ensures
        as_option_nat(r) == positive(smallest(sizes@, tile_payload_fn())),
{
    let n: usize = sizes.len();
    let mut least: Option<usize> = None;
    let mut i: usize = 0;
    assert(sizes@.take(0) =~= Seq::empty());
    while i < n
        invariant
            i <= n,
            n == sizes@.len(),
            as_option_nat(least) == smallest(sizes@.take(i as int), tile_payload_fn()),
        decreases n - i,
    {
        assert(sizes@.take(i + 1).drop_last() =~= sizes@.take(i as int));
        if let Some(size) = sizes[i] {
            let room: usize = max_fragment_payload(size.saturating_sub(WT_VARINT_OVERHEAD));
            assert(room == tile_payload_fn()(size));
            least = match least {
                Some(prev) => if prev <= room {
                    Some(prev)
                } else {
                    Some(room)
                },
                None => Some(room),
            };
        }
        i = i + 1;
    }
    assert(sizes@.take(n as int) =~= sizes@);
    match least {
        Some(0) => None,
        other => other,
    }
}

/// What every session can take is no more than what each of them can take.
pub proof fn smallest_fits_all(sizes: Seq<Option<usize>>, of: spec_fn(usize) -> nat, i: int)
    requires
        0 <= i < sizes.len(),
        sizes[i] is Some,
    ensures
        smallest(sizes, of) is Some,
        smallest(sizes, of)->0 <= of(sizes[i]->0),
    decreases sizes.len(),
{
    if i < sizes.len() - 1 {
        smallest_fits_all(sizes.drop_last(), of, i);
    }
}

/// Announces the size of the picture: on the first frame, whenever it changes,
/// and some times more in case datagrams are lost.
#[derive(Debug, Clone, Copy, PartialEq, Eq)]
pub struct DimensionsAnnouncer {
    /// The size announced last.
    pub last: Option<(u32, u32)>,
    /// How often it is still to be announced.
    pub left: u8,
}

impl DimensionsAnnouncer {
    /// How often it is to be announced, from a frame of this size on: a size
    /// that is new once, and then as often as it is repeated.
    pub open spec fn due(self, width: u32, height: u32) -> u8 {
        if self.last != Some((width, height)) {
            (1 + FRAME_DIMENSIONS_RETRANSMITS) as u8
        } else {
            self.left
        }
    }

    /// The state after a frame of this size.
    pub open spec fn after(self, width: u32, height: u32) -> DimensionsAnnouncer {
        let due = self.due(width, height);
        DimensionsAnnouncer {
            last: Some((width, height)),
            left: (if due > 0 {
                (due - 1) as u8
            } else {
                0
            }),
        }
    }

    /// The state after some frames of the same size.
    pub open spec fn after_frames(self, width: u32, height: u32, n: nat) -> DimensionsAnnouncer
        decreases n,
    {
        if n == 0 {
            self
        } else {
            self.after_frames(width, height, (n - 1) as nat).after(width, height)
        }
    }

    /// Nothing was announced yet.
    pub fn new() -> (a: Self)
        ensures
            a == (DimensionsAnnouncer { last: None, left: 0 }),
    {
        DimensionsAnnouncer { last: None, left: 0 }
    }

    /// A new client is to learn the size too.
    pub fn prime(&mut self)
        ensures
            *final(self) == (DimensionsAnnouncer {
                left: FRAME_DIMENSIONS_RETRANSMITS,
                ..*old(self)
            }),
    {
        self.left = FRAME_DIMENSIONS_RETRANSMITS;
    }

    /// The datagram that announces the size with this frame, if one is due.
    pub fn emit_frame_dimensions(
        &mut self,
        seq: u32,
        timestamp_us: u32,
        width: u32,
        height: u32,
    ) -> (r: Option<Vec<u8>>)
        ensures
            *final(self) == old(self).after(width, height),
            match r {
                Some(dg) => old(self).due(width, height) > 0 && dg@
                    == protocol::frame_dimensions_datagram(seq, timestamp_us, width, height),
                None => old(self).due(width, height) == 0,
            },
    {
        let changed: bool = match self.last {
            Some(d) => d.0 != width || d.1 != height,
            None => true,
        };
        if changed {
            self.left = 1 + FRAME_DIMENSIONS_RETRANSMITS;
            self.last = Some((width, height));
        }
        if self.left > 0 {
            self.left = self.left - 1;
            Some(build_frame_dimensions_datagram(seq, timestamp_us, width, height))
        } else {
            None
        }
    }
}

/// After a change the size is announced once and then repeated exactly so
/// many times, with one frame after the other.
pub proof fn announced_so_often(a: DimensionsAnnouncer, width: u32, height: u32, n: nat)
    requires
        a.last != Some((width, height)),
    ensures
        a.after_frames(width, height, n).due(width, height) == (if n
            <= 1 + FRAME_DIMENSIONS_RETRANSMITS {
            1 + FRAME_DIMENSIONS_RETRANSMITS - n
        } else {
            0
        }),
    decreases n,
{
    if n > 0 {
        announced_so_often(a, width, height, (n - 1) as nat);
    }
}

/// Decides when a client that connects makes the bridge start over: once per
/// connection, and not for the first client ever, as nothing is stale then.
#[derive(Debug)]
pub struct SessionGate {
    fired: HashSet<u64>,
    has_seen_prior_session: bool,
}

/// State of a [`SessionGate`].
#[verifier::ext_equal]
pub struct GateView {
    /// Connections that were seen connected.
    pub fired: Set<u64>,
    /// Some client was connected before.
    pub seen: bool,
}

impl GateView {
    /// The connection is seen connected for the first time, and another client
    /// was there before.
    pub open spec fn fires(self, handle: u64, connected: bool) -> bool {
        connected && !self.fired.contains(handle) && self.seen
    }

    pub open spec fn after(self, handle: u64, connected: bool) -> GateView {
        if connected {
            GateView { fired: self.fired.insert(handle), seen: true }
        } else {
            self
        }
    }

    /// The connection is gone.
    pub open spec fn lost(self, handle: u64) -> GateView {
        GateView { fired: self.fired.remove(handle), ..self }
    }
}

impl View for SessionGate {
    type V = GateView;

    closed spec fn view(&self) -> GateView {
        GateView { fired: self.fired@, seen: self.has_seen_prior_session }
    }
}

impl SessionGate {
    /// A connection that was seen connected makes every later client not the
    /// first.
    pub open spec fn wf(&self) -> bool {
        self@.fired != Set::<u64>::empty() ==> self@.seen
    }

    pub fn new() -> (g: Self)
        ensures
            g.wf(),
            g@ == (GateView { fired: Set::empty(), seen: false }),
    {
        SessionGate { fired: HashSet::new(), has_seen_prior_session: false }
    }

    /// Whether the bridge is to start over for this connection now.
    pub fn maybe_fire_session_reset(&mut self, handle: u64, connected: bool) -> (fire: bool)
        requires
            old(self).wf(),
        ensures
            final(self).wf(),
            fire == old(self)@.fires(handle, connected),
            final(self)@ == old(self)@.after(handle, connected),
    {
        if !connected {
            return false;
        }
        if self.fired.contains(&handle) {
            proof {
                assert(self@.fired.contains(handle));
                assert(self@.fired != Set::<u64>::empty());
                assert(self@.fired.insert(handle) =~= self@.fired);
            }
            return false;
        }
        self.fired.insert(handle);
        let fire: bool = self.has_seen_prior_session;
        self.has_seen_prior_session = true;
        fire
    }

    /// Whether some client was connected before.
    pub fn has_seen_prior_session(&self) -> (b: bool)
        ensures
            b == self@.seen,
    {
        self.has_seen_prior_session
    }

    /// The connection is gone; should its number come back, it counts as new.
    pub fn connection_lost(&mut self, handle: u64)
        requires
            old(self).wf(),
        ensures
            final(self).wf(),
            final(self)@ == old(self)@.lost(handle),
    {
        self.fired.remove(&handle);
        proof {
            if old(self)@.fired == Set::<u64>::empty() {
                assert(self@.fired =~= Set::<u64>::empty());
            }
        }
    }
}

/// The bridge starts over at most once per connection, never for the first
/// client, and for every later one.
pub proof fn one_reset_per_reconnect(g: GateView, handle: u64)
    ensures
        !g.after(handle, true).fires(handle, true),
        !g.fires(handle, false),
        !g.seen ==> !g.fires(handle, true),
        g.seen && !g.fired.contains(handle) ==> g.fires(handle, true),
        g.after(handle, true).lost(handle).fires(handle, true),
{
}

} // verus!
