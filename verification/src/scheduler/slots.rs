//! Dense per-tile delivery state, indexed `tile_y * cols + tile_x`.
//!
//! At most one generation per tile is live, since a bump supersedes the rest,
//! so one generation number and one acknowledgement mask per tile suffice.  An
//! acknowledgement for another generation is told apart by one comparison.
use crate::bits;
use crate::scheduler::slab::Handle;
use vstd::prelude::*;

verus! {

/// Cdf53 emits 14 progressive passes; single-pass codecs use index 0.
pub const PASS_SLOTS: usize = 14;

/// The delivery state of one tile.
#[derive(Debug, Clone)]
pub struct TileSlot {
    pub current_gen: u8,
    pub acked_mask: u16,
    pub passes: [Option<Handle>; PASS_SLOTS],
}

impl TileSlot {
    /// Nothing sent, nothing acknowledged.
    pub open spec fn is_blank(self) -> bool {
        &&& self.current_gen == 0
        &&& self.acked_mask == 0
        &&& self.holds_no_handle()
    }

    pub open spec fn holds_no_handle(self) -> bool {
        forall|i: int| 0 <= i < PASS_SLOTS ==> (#[trigger] self.passes@[i]) is None
    }
}

impl Default for TileSlot {
    fn default() -> (s: Self)
        ensures
            s.is_blank(),
    {
        TileSlot { current_gen: 0, acked_mask: 0, passes: [None; PASS_SLOTS] }
    }
}

/// The delivery state of every tile of the grid.
#[derive(Debug)]
pub struct SlotMap {
    cols: u32,
    rows: u32,
    slots: Vec<TileSlot>,
}

impl View for SlotMap {
    type V = Seq<TileSlot>;

    /// The slots in row-major order.
    closed spec fn view(&self) -> Seq<TileSlot> {
        self.slots@
    }
}

/// `n` slots with nothing sent and nothing acknowledged.
fn blank_slots(n: usize) -> (slots: Vec<TileSlot>)
    ensures
        slots@.len() == n,
        forall|i: int| 0 <= i < n ==> (#[trigger] slots@[i]).is_blank(),
{
    let mut slots: Vec<TileSlot> = Vec::new();
    let mut i: usize = 0;
    while i < n
        invariant
            i <= n,
            slots@.len() == i,
            forall|j: int| 0 <= j < i ==> (#[trigger] slots@[j]).is_blank(),
        decreases n - i,
    {
        slots.push(TileSlot::default());
        i = i + 1;
    }
    slots
}

impl SlotMap {
    pub closed spec fn cols(&self) -> u32 {
        self.cols
    }

    pub closed spec fn rows(&self) -> u32 {
        self.rows
    }

    /// One slot per tile.
    pub open spec fn wf(&self) -> bool {
        self@.len() == self.cols() * self.rows()
    }

    /// Whether the tile is on the grid.
    pub open spec fn on_grid(&self, tile_x: u8, tile_y: u8) -> bool {
        tile_x < self.cols() && tile_y < self.rows()
    }

    /// The tile's row-major position.
    pub open spec fn at(&self, tile_x: u8, tile_y: u8) -> int {
        tile_y * self.cols() + tile_x
    }

    /// The tile's slot.
    pub open spec fn slot_of(&self, tile_x: u8, tile_y: u8) -> TileSlot {
        self@[self.at(tile_x, tile_y)]
    }

    /// The tile is on the grid and at this generation.
    pub open spec fn is_current(&self, tile_x: u8, tile_y: u8, generation: u8) -> bool {
        self.on_grid(tile_x, tile_y) && self.slot_of(tile_x, tile_y).current_gen == generation
    }

    /// The passes acknowledged for this generation of the tile.
    pub open spec fn mask_of(&self, tile_x: u8, tile_y: u8, generation: u8) -> u16 {
        if self.is_current(tile_x, tile_y, generation) {
            self.slot_of(tile_x, tile_y).acked_mask
        } else {
            0
        }
    }

    /// Only the tile's slot differs from `before`, and its handles do not.
    pub open spec fn changes_only(&self, before: SlotMap, tile_x: u8, tile_y: u8) -> bool {
        &&& self.cols() == before.cols()
        &&& self.rows() == before.rows()
        &&& self@.len() == before@.len()
        &&& forall|i: int|
            0 <= i < self@.len() && i != before.at(tile_x, tile_y) ==> #[trigger] self@[i]
                == before@[i]
    }

    pub fn new(cols: u32, rows: u32) -> (m: Self)
        requires
            cols * rows <= usize::MAX,
        ensures
            m.wf(),
            m.cols() == cols,
            m.rows() == rows,
            forall|i: int| 0 <= i < m@.len() ==> (#[trigger] m@[i]).is_blank(),
    {
        SlotMap { cols, rows, slots: blank_slots(cols as usize * rows as usize) }
    }

    /// Gives the grid another size; every tile starts over.
    pub fn resize(&mut self, cols: u32, rows: u32)
        requires
            cols * rows <= usize::MAX,
        ensures
            final(self).wf(),
            final(self).cols() == cols,
            final(self).rows() == rows,
            forall|i: int| 0 <= i < final(self)@.len() ==> (#[trigger] final(self)@[i]).is_blank(),
    {
        self.cols = cols;
        self.rows = rows;
        self.slots = blank_slots(cols as usize * rows as usize);
    }

    /// The tile's row-major position, if it is on the grid.
    pub fn index(&self, tile_x: u8, tile_y: u8) -> (r: Option<usize>)
        requires
            self.wf(),
        ensures
            match r {
                Some(i) => self.on_grid(tile_x, tile_y) && i == self.at(tile_x, tile_y) && i
                    < self@.len(),
                None => !self.on_grid(tile_x, tile_y),
            },
    {
        if (tile_x as u32) >= self.cols || (tile_y as u32) >= self.rows {
            return None;
        }
        assert(tile_y * self.cols + tile_x < self.cols * self.rows) by (nonlinear_arith)
            requires
                tile_x < self.cols,
                tile_y < self.rows,
        ;
        assert(self.slots.len() == self.slots@.len());
        assert(tile_y * self.cols >= 0) by (nonlinear_arith);
        Some(tile_y as usize * self.cols as usize + tile_x as usize)
    }

    pub fn generation(&self, tile_x: u8, tile_y: u8) -> (g: u8)
        requires
            self.wf(),
        ensures
            g == (if self.on_grid(tile_x, tile_y) {
                self.slot_of(tile_x, tile_y).current_gen
            } else {
                0
            }),
    {
        match self.index(tile_x, tile_y) {
            Some(i) => self.slots[i].current_gen,
            None => 0,
        }
    }

    /// Advances the generation, which wraps after fifteen, and forgets what
    /// was acknowledged for the tile.  Returns the new generation; does
    /// nothing off the grid.
    pub fn bump_generation(&mut self, tile_x: u8, tile_y: u8) -> (g: u8)
        requires
            old(self).wf(),
        ensures
            final(self).wf(),
            final(self).changes_only(*old(self), tile_x, tile_y),
            if old(self).on_grid(tile_x, tile_y) {
                &&& g == (old(self).slot_of(tile_x, tile_y).current_gen + 1) % 16
                &&& final(self).slot_of(tile_x, tile_y).current_gen == g
                &&& final(self).slot_of(tile_x, tile_y).acked_mask == 0
                &&& final(self).slot_of(tile_x, tile_y).passes == old(self).slot_of(
                    tile_x,
                    tile_y,
                ).passes
            } else {
                g == 0 && final(self)@ == old(self)@
            },
    {
        match self.index(tile_x, tile_y) {
            Some(i) => {
                let g: u8 = ((self.slots[i].current_gen as u16 + 1) % 16) as u8;
                self.slots[i].current_gen = g;
                self.slots[i].acked_mask = 0;
                g
            },
            None => 0,
        }
    }

    /// Records an acknowledgement.  One that names another generation than the
    /// tile's current one is ignored: it describes content that is gone.
    pub fn record_ack(&mut self, tile_x: u8, tile_y: u8, generation: u8, pass_idx: u8)
        requires
            old(self).wf(),
        ensures
            final(self).wf(),
            final(self).changes_only(*old(self), tile_x, tile_y),
            if old(self).is_current(tile_x, tile_y, generation) {
                &&& final(self).slot_of(tile_x, tile_y).acked_mask == bits::with_bit(
                    old(self).slot_of(tile_x, tile_y).acked_mask,
                    (pass_idx % 16) as u8,
                )
                &&& final(self).slot_of(tile_x, tile_y).current_gen == generation
                &&& final(self).slot_of(tile_x, tile_y).passes == old(self).slot_of(
                    tile_x,
                    tile_y,
                ).passes
            } else {
                final(self)@ == old(self)@
            },
    {
        match self.index(tile_x, tile_y) {
            Some(i) => {
                if self.slots[i].current_gen == generation {
                    let mask: u16 = bits::set_bit(self.slots[i].acked_mask, pass_idx % 16);
                    self.slots[i].acked_mask = mask;
                }
            },
            None => {},
        }
    }

    /// Whether this acknowledgement is not recorded yet; false for another
    /// generation than the tile's current one.
    pub fn is_new_ack(&self, tile_x: u8, tile_y: u8, generation: u8, pass_idx: u8) -> (b: bool)
        requires
            self.wf(),
        ensures
            b == (self.is_current(tile_x, tile_y, generation) && !bits::has_bit(
                self.slot_of(tile_x, tile_y).acked_mask,
                (pass_idx % 16) as u8,
            )),
    {
        match self.index(tile_x, tile_y) {
            Some(i) => self.slots[i].current_gen == generation && !bits::test_bit(
                self.slots[i].acked_mask,
                pass_idx % 16,
            ),
            None => false,
        }
    }

    pub fn acked_mask(&self, tile_x: u8, tile_y: u8, generation: u8) -> (m: u16)
        requires
            self.wf(),
        ensures
            m == self.mask_of(tile_x, tile_y, generation),
    {
        match self.index(tile_x, tile_y) {
            Some(i) => if self.slots[i].current_gen == generation {
                self.slots[i].acked_mask
            } else {
                0
            },
            None => 0,
        }
    }

    /// Number of distinct passes acknowledged.
    pub fn acked_count(&self, tile_x: u8, tile_y: u8, generation: u8) -> (n: u8)
        requires
            self.wf(),
        ensures
            n == bits::count_bits(self.mask_of(tile_x, tile_y, generation)),
    {
        bits::count_ones(self.acked_mask(tile_x, tile_y, generation))
    }

    /// Whether every pass below `max_passes` is acknowledged.
    pub fn fully_acked(&self, tile_x: u8, tile_y: u8, generation: u8, max_passes: u8) -> (b: bool)
        requires
            self.wf(),
        ensures
            b == (forall|p: u8|
                p < 16 && p < max_passes ==> #[trigger] bits::has_bit(
                    self.mask_of(tile_x, tile_y, generation),
                    p,
                )),
    {
        let needed: u16 = bits::low_bits(max_passes);
        let mask: u16 = self.acked_mask(tile_x, tile_y, generation);
        proof {
            bits::covers_bits(mask, needed);
            assert forall|p: u8| p < 16 implies #[trigger] bits::has_bit(needed, p) == (p
                < max_passes) by {
                bits::low_mask_has(max_passes, p);
            }
        }
        (mask & needed) == needed
    }

    /// The passes below `max_passes` that are not acknowledged.
    pub fn unacked_mask(&self, tile_x: u8, tile_y: u8, generation: u8, max_passes: u8) -> (m: u16)
        requires
            self.wf(),
        ensures
            forall|p: u8|
                p < 16 ==> #[trigger] bits::has_bit(m, p) == (p < max_passes && !bits::has_bit(
                    self.mask_of(tile_x, tile_y, generation),
                    p,
                )),
    {
        let full: u16 = bits::low_bits(max_passes);
        let acked: u16 = self.acked_mask(tile_x, tile_y, generation);
        proof {
            assert forall|p: u8| p < 16 implies #[trigger] bits::has_bit(full & !acked, p) == (p
                < max_passes && !bits::has_bit(acked, p)) by {
                bits::difference_has(full, acked, p);
                bits::low_mask_has(max_passes, p);
            }
        }
        full & !acked
    }

    /// The handle queued for a pass of the tile.
    pub fn handle(&self, tile_x: u8, tile_y: u8, pass_idx: u8) -> (h: Option<Handle>)
        requires
            self.wf(),
        ensures
            h == (if self.on_grid(tile_x, tile_y) && pass_idx < PASS_SLOTS {
                self.slot_of(tile_x, tile_y).passes@[pass_idx as int]
            } else {
                None
            }),
    {
        match self.index(tile_x, tile_y) {
            Some(i) => if (pass_idx as usize) < PASS_SLOTS {
                self.slots[i].passes[pass_idx as usize]
            } else {
                None
            },
            None => None,
        }
    }

    /// Queues a handle for a pass of the tile; does nothing off the grid or
    /// past the last pass.
    pub fn set_handle(&mut self, tile_x: u8, tile_y: u8, pass_idx: u8, h: Option<Handle>)
        requires
            old(self).wf(),
        ensures
            final(self).wf(),
            final(self).changes_only(*old(self), tile_x, tile_y),
            if old(self).on_grid(tile_x, tile_y) && pass_idx < PASS_SLOTS {
                &&& final(self).slot_of(tile_x, tile_y).passes@ == old(self).slot_of(
                    tile_x,
                    tile_y,
                ).passes@.update(pass_idx as int, h)
                &&& final(self).slot_of(tile_x, tile_y).current_gen == old(self).slot_of(
                    tile_x,
                    tile_y,
                ).current_gen
                &&& final(self).slot_of(tile_x, tile_y).acked_mask == old(self).slot_of(
                    tile_x,
                    tile_y,
                ).acked_mask
            } else {
                final(self)@ == old(self)@
            },
    {
        match self.index(tile_x, tile_y) {
            Some(i) => {
                if (pass_idx as usize) < PASS_SLOTS {
                    self.slots[i].passes[pass_idx as usize] = h;
                }
            },
            None => {},
        }
    }

    /// Drops all queued handles but keeps generations and acknowledgements, so
    /// that a late acknowledgement still finds what it is about.
    pub fn clear_handles(&mut self)
        requires
            old(self).wf(),
        ensures
            final(self).wf(),
            final(self).cols() == old(self).cols(),
            final(self).rows() == old(self).rows(),
            forall|i: int|
                0 <= i < final(self)@.len() ==> (#[trigger] final(self)@[i]).holds_no_handle()
                    && final(self)@[i].current_gen == old(self)@[i].current_gen
                    && final(self)@[i].acked_mask == old(self)@[i].acked_mask,
    {
        let n: usize = self.slots.len();
        let mut i: usize = 0;
        while i < n
            invariant
                i <= n,
                n == self.slots@.len(),
                n == old(self).slots@.len(),
                self.cols == old(self).cols,
                self.rows == old(self).rows,
                forall|j: int|
                    0 <= j < n ==> (#[trigger] self.slots@[j]).current_gen == old(
                        self,
                    ).slots@[j].current_gen && self.slots@[j].acked_mask == old(
                        self,
                    ).slots@[j].acked_mask,
                forall|j: int| 0 <= j < i ==> (#[trigger] self.slots@[j]).holds_no_handle(),
            decreases n - i,
        {
            self.slots[i].passes = [None; PASS_SLOTS];
            i = i + 1;
        }
    }
}

/// A repeated acknowledgement changes nothing.
pub proof fn repeated_ack_is_ignored(before: SlotMap, after: SlotMap, x: u8, y: u8, g: u8, pass: u8)
    requires
        before.wf(),
        before.is_current(x, y, g),
        bits::has_bit(before.slot_of(x, y).acked_mask, (pass % 16) as u8),
        after.changes_only(before, x, y),
        after.slot_of(x, y).acked_mask == bits::with_bit(
            before.slot_of(x, y).acked_mask,
            (pass % 16) as u8,
        ),
        after.slot_of(x, y).current_gen == g,
        after.slot_of(x, y).passes == before.slot_of(x, y).passes,
    ensures
        after@ == before@,
{
    bits::with_bit_idempotent(before.slot_of(x, y).acked_mask, (pass % 16) as u8);
    assert(after.slot_of(x, y) == before.slot_of(x, y));
    assert(after@ =~= before@);
}

/// Tiles at different places of the grid have different slots.
pub proof fn slots_do_not_alias(m: SlotMap, x1: u8, y1: u8, x2: u8, y2: u8)
    requires
        m.wf(),
        m.on_grid(x1, y1),
        m.on_grid(x2, y2),
        m.at(x1, y1) == m.at(x2, y2),
    ensures
        x1 == x2,
        y1 == y2,
{
    let c = m.cols() as int;
    assert(y1 == y2) by (nonlinear_arith)
        requires
            y1 * c + x1 == y2 * c + x2,
            0 <= x1 < c,
            0 <= x2 < c,
    ;
}

/// A blank slot is at generation 0, with no pass acknowledged and no handle.
pub proof fn a_blank_slot_has_nothing(s: TileSlot, i: int)
    requires
        s.is_blank(),
        0 <= i < 14,
    ensures
        s.current_gen == 0,
        s.acked_mask == 0,
        s.passes@[i] is None,
{
}

/// Only the current generation of a tile on the grid has acknowledged passes.
pub proof fn old_generations_have_no_passes(m: SlotMap, x: u8, y: u8, generation: u8)
    ensures
        x >= m.cols() || y >= m.rows() ==> m.mask_of(x, y, generation) == 0,
        x < m.cols() && y < m.rows() && m@[y * m.cols() + x].current_gen != generation
            ==> m.mask_of(x, y, generation) == 0,
        x < m.cols() && y < m.rows() && m@[y * m.cols() + x].current_gen == generation
            ==> m.mask_of(x, y, generation) == m@[y * m.cols() + x].acked_mask,
{
}

} // verus!
