//! Which palettes the client has, and which are on their way to it.
//!
//! The table of palettes itself is kept by the encoder.  This is the part that
//! emission and acknowledgement decide on.
use vstd::prelude::*;

verus! {

/// Number of palettes that can be told apart.
pub const PALETTE_SLOTS: usize = 256;

/// Delivery of palettes: which ones the client has acknowledged, and how many
/// payloads that carry one are in flight.
#[derive(Debug)]
pub struct PaletteDelivery {
    delivered: Vec<bool>,
    in_flight: Vec<u32>,
}

/// State of a [`PaletteDelivery`], by palette number.
#[verifier::ext_equal]
pub struct DeliveryView {
    pub delivered: Seq<bool>,
    pub in_flight: Seq<u32>,
}

/// One less, at least zero.
pub open spec fn one_less(n: u32) -> u32 {
    if n == 0 {
        0
    } else {
        (n - 1) as u32
    }
}

/// One more, at most the largest number.
pub open spec fn one_more(n: u32) -> u32 {
    if n == u32::MAX {
        n
    } else {
        (n + 1) as u32
    }
}

impl DeliveryView {
    pub open spec fn wf(self) -> bool {
        self.delivered.len() == PALETTE_SLOTS && self.in_flight.len() == PALETTE_SLOTS
    }

    /// A payload that carries the palette is on its way.
    pub open spec fn sent(self, id: u8) -> DeliveryView {
        DeliveryView {
            in_flight: self.in_flight.update(id as int, one_more(self.in_flight[id as int])),
            ..self
        }
    }

    /// A payload that uses the palette was acknowledged.
    pub open spec fn acked(self, id: u8) -> DeliveryView {
        DeliveryView {
            delivered: self.delivered.update(id as int, true),
            in_flight: self.in_flight.update(id as int, one_less(self.in_flight[id as int])),
        }
    }

    /// A payload that uses the palette was superseded before it was
    /// acknowledged.
    pub open spec fn dropped(self, id: u8) -> DeliveryView {
        DeliveryView {
            in_flight: self.in_flight.update(id as int, one_less(self.in_flight[id as int])),
            ..self
        }
    }

    /// The client does not have the palette after all.
    pub open spec fn rebundled(self, id: u8) -> DeliveryView {
        DeliveryView { delivered: self.delivered.update(id as int, false), ..self }
    }

    /// A new session: nothing is in flight, and the client has no palette
    /// unless that is to be kept.
    pub open spec fn fresh(keep: Option<Seq<bool>>) -> DeliveryView {
        DeliveryView {
            delivered: (match keep {
                Some(d) => d,
                None => Seq::new(PALETTE_SLOTS as nat, |i: int| false),
            }),
            in_flight: Seq::new(PALETTE_SLOTS as nat, |i: int| 0u32),
        }
    }
}

impl View for PaletteDelivery {
    type V = DeliveryView;

    closed spec fn view(&self) -> DeliveryView {
        DeliveryView { delivered: self.delivered@, in_flight: self.in_flight@ }
    }
}

fn falses(n: usize) -> (v: Vec<bool>)
    ensures
        v@ == Seq::new(n as nat, |i: int| false),
{
    let mut v: Vec<bool> = Vec::new();
    let mut i: usize = 0;
    while i < n
        invariant
            i <= n,
            v@ == Seq::new(i as nat, |j: int| false),
        decreases n - i,
    {
        v.push(false);
        i = i + 1;
        assert(v@ =~= Seq::new(i as nat, |j: int| false));
    }
    v
}

fn zeros(n: usize) -> (v: Vec<u32>)
    ensures
        v@ == Seq::new(n as nat, |i: int| 0u32),
{
    let mut v: Vec<u32> = Vec::new();
    let mut i: usize = 0;
    while i < n
        invariant
            i <= n,
            v@ == Seq::new(i as nat, |j: int| 0u32),
        decreases n - i,
    {
        v.push(0);
        i = i + 1;
        assert(v@ =~= Seq::new(i as nat, |j: int| 0u32));
    }
    v
}

impl PaletteDelivery {
    pub open spec fn wf(&self) -> bool {
        self@.wf()
    }

    /// Nothing is delivered and nothing in flight.
    pub fn new() -> (p: Self)
        ensures
            p.wf(),
            p@ == DeliveryView::fresh(None),
    {
        PaletteDelivery { delivered: falses(PALETTE_SLOTS), in_flight: zeros(PALETTE_SLOTS) }
    }

    /// Whether the client has the palette.
    pub fn is_delivered(&self, id: u8) -> (b: bool)
        requires
            self.wf(),
        ensures
            b == self@.delivered[id as int],
    {
        self.delivered[id as usize]
    }

    /// How many payloads that carry the palette are in flight.
    pub fn in_flight_carrying(&self, id: u8) -> (n: u32)
        requires
            self.wf(),
        ensures
            n == self@.in_flight[id as int],
    {
        self.in_flight[id as usize]
    }

    /// Notes that a payload with the palette goes out.
    pub fn on_sent(&mut self, id: u8)
        requires
            old(self).wf(),
        ensures
            final(self).wf(),
            final(self)@ == old(self)@.sent(id),
    {
        let n: u32 = self.in_flight[id as usize];
        self.in_flight.set(id as usize, n.saturating_add(1));
        assert(self@ =~= old(self)@.sent(id));
    }

    /// Notes that a payload that uses the palette was acknowledged.
    pub fn on_acked(&mut self, id: u8)
        requires
            old(self).wf(),
        ensures
            final(self).wf(),
            final(self)@ == old(self)@.acked(id),
    {
        self.delivered.set(id as usize, true);
        let n: u32 = self.in_flight[id as usize];
        self.in_flight.set(id as usize, n.saturating_sub(1));
        assert(self@ =~= old(self)@.acked(id));
    }

    /// Notes that a payload that uses the palette was superseded.
    pub fn on_dropped(&mut self, id: u8)
        requires
            old(self).wf(),
        ensures
            final(self).wf(),
            final(self)@ == old(self)@.dropped(id),
    {
        let n: u32 = self.in_flight[id as usize];
        self.in_flight.set(id as usize, n.saturating_sub(1));
        assert(self@ =~= old(self)@.dropped(id));
    }

    /// The next payload is to carry the palette again.
    pub fn force_rebundle(&mut self, id: u8)
        requires
            old(self).wf(),
        ensures
            final(self).wf(),
            final(self)@ == old(self)@.rebundled(id),
    {
        self.delivered.set(id as usize, false);
        assert(self@ =~= old(self)@.rebundled(id));
    }

    /// A new session starts.
    pub fn on_session_reset(&mut self, preserve_delivered: bool)
        requires
            old(self).wf(),
        ensures
            final(self).wf(),
            final(self)@ == DeliveryView::fresh(
                if preserve_delivered {
                    Some(old(self)@.delivered)
                } else {
                    None
                },
            ),
    {
        if !preserve_delivered {
            self.delivered = falses(PALETTE_SLOTS);
        }
        self.in_flight = zeros(PALETTE_SLOTS);
    }
}

/// A palette stays known to the client until it reports otherwise or the
/// session ends: acknowledging one touches no other.
pub proof fn palettes_are_independent(p: DeliveryView, id: u8, other: u8)
    requires
        p.wf(),
        id != other,
    ensures
        p.acked(id).delivered[other as int] == p.delivered[other as int],
        p.acked(id).in_flight[other as int] == p.in_flight[other as int],
        p.dropped(id).in_flight[other as int] == p.in_flight[other as int],
        p.rebundled(id).delivered[other as int] == p.delivered[other as int],
{
}

} // verus!
