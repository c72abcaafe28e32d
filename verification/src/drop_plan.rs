//! Deterministic drop injection for end-to-end tests.
//!
//! Random loss cannot produce the case of a tile whose only transmission is
//! lost, so that the receiver never learns of it.  A plan names the tile and
//! which of its transmissions are to be dropped.  It is asked before the
//! datagram is encrypted, where the tile's coordinates can be read.
use crate::protocol::{is_tile_datagram, DATAGRAM_HEADER_SIZE, TILE_DATAGRAM_FLAG};
use crate::wire;
use vstd::prelude::*;

verus! {

broadcast use vstd::slice::group_slice_axioms;

/// Where a tile's column stands in its datagram.
pub const TILE_X_OFFSET: usize = DATAGRAM_HEADER_SIZE;

/// Where a tile's row stands in its datagram.
pub const TILE_Y_OFFSET: usize = DATAGRAM_HEADER_SIZE + 1;

/// Length of the shortest datagram that holds both coordinates.
pub const MIN_TILE_LEN: usize = TILE_Y_OFFSET + 1;

/// Drops the given occurrences of datagrams of a tile, counted from zero.
#[derive(Debug, Clone)]
pub struct DropRule {
    pub tile_x: u8,
    pub tile_y: u8,
    pub occurrences: Vec<u32>,
}

/// A set of drop rules, at most one per tile.
#[derive(Debug)]
pub struct DropPlan {
    rules: Vec<DropRule>,
    seen: Vec<u32>,
    dropped: Vec<u32>,
}

/// A rule as it is written.
#[verifier::ext_equal]
pub struct RuleView {
    pub tile_x: u8,
    pub tile_y: u8,
    pub occurrences: Seq<u32>,
}

impl View for DropRule {
    type V = RuleView;

    open spec fn view(&self) -> RuleView {
        RuleView { tile_x: self.tile_x, tile_y: self.tile_y, occurrences: self.occurrences@ }
    }
}

impl RuleView {
    pub open spec fn names(self, tile_x: u8, tile_y: u8) -> bool {
        self.tile_x == tile_x && self.tile_y == tile_y
    }
}

/// The rules of a plan.
pub open spec fn rule_views(rules: Seq<DropRule>) -> Seq<RuleView> {
    rules.map_values(|r: DropRule| r@)
}

/// Every rule can fire: it names an occurrence, and no earlier rule names its
/// tile.
pub open spec fn rules_can_fire(rules: Seq<RuleView>) -> bool {
    &&& forall|i: int| 0 <= i < rules.len() ==> (#[trigger] rules[i]).occurrences.len() > 0
    &&& forall|i: int, j: int|
        0 <= i < j < rules.len() ==> !(#[trigger] rules[j]).names(
            (#[trigger] rules[i]).tile_x,
            rules[i].tile_y,
        )
}

/// The datagram carries a tile and both its coordinates.
pub open spec fn carries_tile(payload: Seq<u8>) -> bool {
    payload.len() >= MIN_TILE_LEN && wire::be32_at(payload, 0) >= TILE_DATAGRAM_FLAG
}

/// One more, staying at the largest number.
pub open spec fn one_more(n: u32) -> u32 {
    if n == u32::MAX {
        n
    } else {
        (n + 1) as u32
    }
}

/// State of a [`DropPlan`].
#[verifier::ext_equal]
pub struct PlanView {
    pub rules: Seq<RuleView>,
    /// Matching datagrams seen so far, per rule.
    pub seen: Seq<u32>,
    /// Datagrams dropped so far, per rule.
    pub dropped: Seq<u32>,
}

impl PlanView {
    pub open spec fn wf(self) -> bool {
        self.seen.len() == self.rules.len() && self.dropped.len() == self.rules.len()
    }

    /// The first rule from `i` on that is for the datagram's tile, or the
    /// number of rules.
    pub open spec fn matching(self, payload: Seq<u8>, i: int) -> int
        decreases self.rules.len() - i,
    {
        if i >= self.rules.len() || !carries_tile(payload) {
            self.rules.len() as int
        } else if self.rules[i].names(
            payload[TILE_X_OFFSET as int],
            payload[TILE_Y_OFFSET as int],
        ) {
            i
        } else {
            self.matching(payload, i + 1)
        }
    }

    /// The datagram is the occurrence of its tile that a rule names.
    pub open spec fn drops_next(self, payload: Seq<u8>) -> bool {
        let i = self.matching(payload, 0);
        i < self.rules.len() && self.rules[i].occurrences.contains(self.seen[i])
    }

    /// The state after a datagram has come by.
    pub open spec fn after(self, payload: Seq<u8>) -> PlanView {
        let i = self.matching(payload, 0);
        if i < self.rules.len() {
            PlanView {
                rules: self.rules,
                seen: self.seen.update(i, one_more(self.seen[i])),
                dropped: (if self.drops_next(payload) {
                    self.dropped.update(i, one_more(self.dropped[i]))
                } else {
                    self.dropped
                }),
            }
        } else {
            self
        }
    }
}

impl View for DropPlan {
    type V = PlanView;

    closed spec fn view(&self) -> PlanView {
        PlanView {
            rules: rule_views(self.rules@),
            seen: self.seen@,
            dropped: self.dropped@,
        }
    }
}

impl DropPlan {
    /// The plan's invariant.
    pub open spec fn wf(&self) -> bool {
        self@.wf()
    }

    /// A plan of rules that can fire.
    pub fn new(rules: Vec<DropRule>) -> (p: Self)
        requires
            rules_can_fire(rule_views(rules@)),
        ensures
            p.wf(),
            p@.rules == rule_views(rules@),
            p@.seen == Seq::new(rules@.len(), |i: int| 0u32),
            p@.dropped == Seq::new(rules@.len(), |i: int| 0u32),
    {
        let n: usize = rules.len();
        let p = DropPlan { rules, seen: zeros(n), dropped: zeros(n) };
        assert(p@.seen =~= Seq::new(rules@.len(), |i: int| 0u32));
        assert(p@.dropped =~= Seq::new(rules@.len(), |i: int| 0u32));
        p
    }

    /// Datagrams dropped so far, per rule.  A test that relies on a drop looks
    /// here first: a rule for a tile that is never sent is silent.
    pub fn drops(&self) -> (d: &[u32])
        ensures
            d@ == self@.dropped,
    {
        self.dropped.as_slice()
    }

    /// Whether the datagram is to be dropped.  The rule for its tile, if there
    /// is one, has seen one occurrence more.
    pub fn should_drop(&mut self, payload: &[u8]) -> (b: bool)
        requires
            old(self).wf(),
        ensures
            final(self).wf(),
            b == old(self)@.drops_next(payload@),
            final(self)@ == old(self)@.after(payload@),
    {
        if self.rules.len() == 0 {
            return false;
        }
        if payload.len() < MIN_TILE_LEN || !is_tile_datagram(payload) {
            return false;
        }
        let tx: u8 = payload[TILE_X_OFFSET];
        let ty: u8 = payload[TILE_Y_OFFSET];
        let n: usize = self.rules.len();
        let mut i: usize = 0;
        while i < n
            invariant
                i <= n,
                n == self.rules@.len(),
                *self == *old(self),
                self.wf(),
                carries_tile(payload@),
                tx == payload@[TILE_X_OFFSET as int],
                ty == payload@[TILE_Y_OFFSET as int],
                self@.matching(payload@, 0) == self@.matching(payload@, i as int),
            decreases n - i,
        {
            if self.rules[i].tile_x == tx && self.rules[i].tile_y == ty {
                let seen: u32 = self.seen[i];
                self.seen.set(i, seen.saturating_add(1));
                let drop: bool = holds(self.rules[i].occurrences.as_slice(), seen);
                if drop {
                    let dropped: u32 = self.dropped[i];
                    self.dropped.set(i, dropped.saturating_add(1));
                }
                assert(self@ =~= old(self)@.after(payload@));
                return drop;
            }
            i = i + 1;
        }
        false
    }
}

impl Default for DropPlan {
    /// A plan that drops nothing.
    fn default() -> (p: Self)
        ensures
            p.wf(),
            p@.rules == Seq::<RuleView>::empty(),
            p@.dropped == Seq::<u32>::empty(),
    {
        DropPlan { rules: Vec::new(), seen: Vec::new(), dropped: Vec::new() }
    }
}

/// So many zeros.
fn zeros(n: usize) -> (v: Vec<u32>)
    ensures
        v@.len() == n,
        forall|i: int| 0 <= i < n ==> v@[i] == 0,
{
    let mut v: Vec<u32> = Vec::new();
    let mut i: usize = 0;
    while i < n
        invariant
            i <= n,
            v@.len() == i,
            forall|j: int| 0 <= j < i ==> v@[j] == 0,
        decreases n - i,
    {
        v.push(0);
        i = i + 1;
    }
    v
}

/// Whether the list holds the number.
fn holds(list: &[u32], x: u32) -> (b: bool)
    ensures
        b == list@.contains(x),
{
    let mut i: usize = 0;
    while i < list.len()
        invariant
            i <= list@.len(),
            forall|j: int| 0 <= j < i ==> list@[j] != x,
        decreases list@.len() - i,
    {
        if list[i] == x {
            assert(list@[i as int] == x);
            return true;
        }
        i = i + 1;
    }
    false
}

/// A datagram that does not carry a tile, or carries one that no rule names,
/// passes and uses up no occurrence.
pub proof fn other_datagrams_pass(p: PlanView, payload: Seq<u8>)
    requires
        p.wf(),
        !carries_tile(payload) || forall|i: int|
            0 <= i < p.rules.len() ==> !(#[trigger] p.rules[i]).names(
                payload[TILE_X_OFFSET as int],
                payload[TILE_Y_OFFSET as int],
            ),
    ensures
        !p.drops_next(payload),
        p.after(payload) == p,
{
    no_match(p, payload, 0);
}

proof fn no_match(p: PlanView, payload: Seq<u8>, i: int)
    requires
        0 <= i <= p.rules.len(),
        !carries_tile(payload) || forall|k: int|
            0 <= k < p.rules.len() ==> !(#[trigger] p.rules[k]).names(
                payload[TILE_X_OFFSET as int],
                payload[TILE_Y_OFFSET as int],
            ),
    ensures
        p.matching(payload, i) == p.rules.len(),
    decreases p.rules.len() - i,
{
    if i < p.rules.len() {
        no_match(p, payload, i + 1);
    }
}

/// The number of datagrams dropped rises exactly with a drop, for one rule.
pub proof fn drops_are_counted(p: PlanView, payload: Seq<u8>, i: int)
    requires
        p.wf(),
        0 <= i < p.rules.len(),
    ensures
        p.after(payload).dropped[i] == (if p.drops_next(payload) && i == p.matching(payload, 0) {
            one_more(p.dropped[i])
        } else {
            p.dropped[i]
        }),
{
    match_is_behind(p, payload, 0);
}

/// A rule is looked for from `i` on.
proof fn match_is_behind(p: PlanView, payload: Seq<u8>, i: int)
    requires
        0 <= i <= p.rules.len(),
    ensures
        i <= p.matching(payload, i) <= p.rules.len(),
    decreases p.rules.len() - i,
{
    if i < p.rules.len() {
        match_is_behind(p, payload, i + 1);
    }
}

/// Whether rule `i` is the one that counts for a datagram: the first that
/// names the tile it carries.
pub open spec fn is_first_rule(p: PlanView, payload: Seq<u8>, i: int) -> bool {
    &&& carries_tile(payload)
    &&& 0 <= i < p.rules.len()
    &&& p.rules[i].tile_x == payload[16] && p.rules[i].tile_y == payload[17]
    &&& forall|j: int|
        0 <= j < i ==> (#[trigger] p.rules[j]).tile_x != payload[16] || p.rules[j].tile_y
            != payload[17]
}

/// The first rule that names a datagram's tile counts it, and drops it if and
/// only if the number seen before is one of those it names; no other rule's
/// counts change.
pub proof fn the_first_rule_decides(p: PlanView, payload: Seq<u8>, i: int)
    requires
        p.wf(),
        is_first_rule(p, payload, i),
    ensures
        ({
            let a = p.after(payload);
            let hit = p.rules[i].occurrences.contains(p.seen[i]);
            &&& p.drops_next(payload) == hit
            &&& a.rules == p.rules
            &&& a.wf()
            &&& p.seen[i] < u32::MAX ==> a.seen[i] == p.seen[i] + 1
            &&& hit && p.dropped[i] < u32::MAX ==> a.dropped[i] == p.dropped[i] + 1
            &&& !hit ==> a.dropped[i] == p.dropped[i]
            &&& forall|j: int|
                0 <= j < p.rules.len() && j != i ==> #[trigger] a.seen[j] == p.seen[j]
                    && a.dropped[j] == p.dropped[j]
        }),
{
    first_is_found(p, payload, i, 0);
}

proof fn first_is_found(p: PlanView, payload: Seq<u8>, i: int, from: int)
    requires
        is_first_rule(p, payload, i),
        0 <= from <= i,
    ensures
        p.matching(payload, from) == i,
    decreases i - from,
{
    if from < i {
        assert(p.rules[from].tile_x != payload[16] || p.rules[from].tile_y != payload[17]);
        first_is_found(p, payload, i, from + 1);
    }
}

/// A datagram carries a tile when its first bit is set and it is long enough
/// to name one.
pub proof fn tile_datagrams_are_told_by_the_first_bit(payload: Seq<u8>)
    ensures
        carries_tile(payload) <==> payload.len() >= 18 && payload[0] >= 0x80,
{
}

/// A plan has its rules in the order they were given.
pub proof fn rules_keep_their_order(rules: Seq<DropRule>, i: int)
    requires
        0 <= i < rules.len(),
    ensures
        rule_views(rules).len() == rules.len(),
        rule_views(rules)[i].tile_x == rules[i].tile_x,
        rule_views(rules)[i].tile_y == rules[i].tile_y,
        rule_views(rules)[i].occurrences == rules[i].occurrences@,
{
}

/// Counts stay at the largest number.
pub proof fn counts_never_fall(n: u32)
    ensures
        n < u32::MAX ==> one_more(n) == n + 1,
        one_more(u32::MAX) == u32::MAX,
{
}

} // verus!
