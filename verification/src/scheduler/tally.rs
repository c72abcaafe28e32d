//! Counting refinement work per tile and generation.
use crate::fragment_coverage::FragmentCoverage;
use crate::protocol::Codec;
use crate::scheduler::work::WorkView;
use vstd::prelude::*;

verus! {

/// Column, row and generation of a tile.
pub type TileVersion = (u8, u8, u8);

/// How often `t` occurs.
pub open spec fn occurrences(s: Seq<TileVersion>, t: TileVersion) -> nat
    decreases s.len(),
{
    if s.len() == 0 {
        0
    } else {
        occurrences(s.drop_last(), t) + (if s.last() == t {
            1nat
        } else {
            0nat
        })
    }
}

/// The tile versions of queued work that is neither acknowledged nor
/// superseded.
pub open spec fn live_versions(q: Seq<WorkView>) -> Seq<TileVersion>
    decreases q.len(),
{
    if q.len() == 0 {
        Seq::empty()
    } else if q.last().is_terminal() {
        live_versions(q.drop_last())
    } else {
        live_versions(q.drop_last()).push(
            (q.last().tile_x, q.last().tile_y, q.last().generation),
        )
    }
}

/// The tile versions of Cdf53 passes in flight.
pub open spec fn covered_versions(c: Seq<FragmentCoverage>) -> Seq<TileVersion>
    decreases c.len(),
{
    if c.len() == 0 {
        Seq::empty()
    } else if c.last().codec == Codec::Cdf53 {
        covered_versions(c.drop_last()).push(
            (c.last().tile_x, c.last().tile_y, c.last().generation),
        )
    } else {
        covered_versions(c.drop_last())
    }
}

/// `n`, at most 255.
pub open spec fn capped(n: nat) -> u8 {
    if n <= 255 {
        n as u8
    } else {
        255
    }
}

/// The tile version of a line.
pub open spec fn version_of(line: (u8, u8, u8, u8)) -> TileVersion {
    (line.0, line.1, line.2)
}

/// One line per tile version that occurs, with its number of occurrences.
pub open spec fn is_tally(lines: Seq<(u8, u8, u8, u8)>, s: Seq<TileVersion>) -> bool {
    &&& forall|i: int, j: int|
        0 <= i < j < lines.len() ==> version_of(#[trigger] lines[i]) != version_of(
            #[trigger] lines[j],
        )
    &&& forall|i: int|
        0 <= i < lines.len() ==> occurrences(s, version_of(#[trigger] lines[i])) > 0 && lines[i].3
            == capped(occurrences(s, version_of(lines[i])))
    &&& forall|t: TileVersion| #[trigger] occurrences(s, t) > 0 ==> listed(lines, t)
}

/// Some line is for the tile version.
pub open spec fn listed(lines: Seq<(u8, u8, u8, u8)>, t: TileVersion) -> bool {
    exists|i: int| 0 <= i < lines.len() && version_of(#[trigger] lines[i]) == t
}

/// Counts one more occurrence.
pub(crate) fn count(
    lines: &mut Vec<(u8, u8, u8, u8)>,
    t: TileVersion,
    Ghost(s): Ghost<Seq<TileVersion>>,
)
    requires
        is_tally(old(lines)@, s),
    ensures
        is_tally(final(lines)@, s.push(t)),
{
    let ghost before = lines@;
    let ghost more = s.push(t);
    proof {
        assert(more.drop_last() =~= s);
        assert forall|u: TileVersion| #[trigger]
            occurrences(more, u) == occurrences(s, u) + (if u == t {
                1nat
            } else {
                0nat
            }) by {}
    }
    let n: usize = lines.len();
    let mut i: usize = 0;
    while i < n
        invariant
            i <= n,
            n == lines@.len(),
            lines@ == before,
            is_tally(before, s),
            more == s.push(t),
            forall|u: TileVersion| #[trigger]
                occurrences(more, u) == occurrences(s, u) + (if u == t {
                    1nat
                } else {
                    0nat
                }),
            forall|j: int| 0 <= j < i ==> version_of(#[trigger] before[j]) != t,
        decreases n - i,
    {
        let line = lines[i];
        if line.0 == t.0 && line.1 == t.1 && line.2 == t.2 {
            lines.set(i, (line.0, line.1, line.2, line.3.saturating_add(1)));
            proof {
                let after = lines@;
                assert forall|j: int| 0 <= j < after.len() implies version_of(
                    #[trigger] after[j],
                ) == version_of(before[j]) by {}
                assert forall|u: TileVersion| #[trigger] occurrences(more, u) > 0 implies listed(
                    after,
                    u,
                ) by {
                    if u == t {
                        assert(version_of(after[i as int]) == t);
                    } else {
                        let j = choose|j: int|
                            0 <= j < before.len() && version_of(#[trigger] before[j]) == u;
                        assert(version_of(after[j]) == u);
                    }
                }
                assert forall|j: int| 0 <= j < after.len() implies occurrences(
                    more,
                    version_of(#[trigger] after[j]),
                ) > 0 && after[j].3 == capped(occurrences(more, version_of(after[j]))) by {
                    assert(version_of(after[j]) == version_of(before[j]));
                    if j != i {
                        assert(version_of(before[j]) != version_of(before[i as int]));
                    }
                }
            }
            return;
        }
        i = i + 1;
    }
    lines.push((t.0, t.1, t.2, 1));
    proof {
        let after = lines@;
        assert(occurrences(s, t) == 0) by {
            if occurrences(s, t) > 0 {
                assert(listed(before, t));
            }
        }
        assert forall|u: TileVersion| #[trigger] occurrences(more, u) > 0 implies listed(
            after,
            u,
        ) by {
            if u == t {
                assert(version_of(after[n as int]) == t);
            } else {
                let j = choose|j: int|
                    0 <= j < before.len() && version_of(#[trigger] before[j]) == u;
                assert(version_of(after[j]) == u);
            }
        }
        assert forall|j: int| 0 <= j < after.len() implies occurrences(
            more,
            version_of(#[trigger] after[j]),
        ) > 0 && after[j].3 == capped(occurrences(more, version_of(after[j]))) by {
            if j < n {
                assert(after[j] == before[j]);
            }
        }
    }
}

/// Nothing is counted in nothing.
pub proof fn empty_tally()
    ensures
        is_tally(Seq::empty(), Seq::empty()),
{
    assert forall|t: TileVersion| occurrences(Seq::empty(), t) == 0 by {}
}

} // verus!
