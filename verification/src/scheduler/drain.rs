//! How the two queues are drained on a tick.
//!
//! Priority work goes out in queue order under a soft cap: the entry that
//! crosses the budget is still sent.  Refinement work goes out pass by pass,
//! every tile's pass 0 before any tile's pass 1, under a hard cap.
use crate::scheduler::work;
use crate::scheduler::work::{
    drop_terminal, emit_work, pop_work, push_work, TileWork, WorkState, WorkView,
};
use crate::seqs;
use crate::time::{Duration, Instant};
use std::collections::VecDeque;
use vstd::prelude::*;

verus! {

broadcast use vstd::std_specs::vecdeque::group_vec_dequeue_axioms;

// ---------------------------------------------------------------------------
// Priority queue
// ---------------------------------------------------------------------------

/// Payload bytes of the due entries.
pub open spec fn due_bytes(q: Seq<WorkView>, now: Instant, retry_after: int) -> nat
    decreases q.len(),
{
    if q.len() == 0 {
        0
    } else {
        due_bytes(q.drop_last(), now, retry_after) + (if q.last().is_due(now, retry_after) {
            q.last().payload.len()
        } else {
            0
        })
    }
}

/// Whether entry `i` goes out: it is due, and the due entries before it have
/// not used the budget up.
pub open spec fn goes_out(
    q: Seq<WorkView>,
    i: int,
    budget: nat,
    now: Instant,
    retry_after: int,
) -> bool {
    q[i].is_due(now, retry_after) && due_bytes(q.take(i), now, retry_after) < budget
}

/// The entries that go out among the first `n`, in queue order.
pub open spec fn outgoing(
    q: Seq<WorkView>,
    n: int,
    budget: nat,
    now: Instant,
    retry_after: int,
) -> Seq<WorkView>
    decreases n,
{
    if n <= 0 {
        Seq::empty()
    } else if goes_out(q, n - 1, budget, now, retry_after) {
        outgoing(q, n - 1, budget, now, retry_after).push(q[n - 1].sent_at(now))
    } else {
        outgoing(q, n - 1, budget, now, retry_after)
    }
}

/// The queue afterwards: what went out stays, as sent.
pub open spec fn after_outgoing(
    q: Seq<WorkView>,
    budget: nat,
    now: Instant,
    retry_after: int,
) -> Seq<WorkView> {
    Seq::new(
        q.len(),
        |i: int|
            if goes_out(q, i, budget, now, retry_after) {
                q[i].sent_at(now)
            } else {
                q[i]
            },
    )
}

/// Due bytes only grow along the queue.
pub proof fn due_bytes_grow(q: Seq<WorkView>, i: int, j: int, now: Instant, retry_after: int)
    requires
        0 <= i <= j <= q.len(),
    ensures
        due_bytes(q.take(i), now, retry_after) <= due_bytes(q.take(j), now, retry_after),
    decreases j,
{
    if i < j {
        assert(q.take(j).drop_last() =~= q.take(j - 1));
        due_bytes_grow(q, i, j - 1, now, retry_after);
    }
}

/// Drops terminal entries, then sends due ones in queue order until the
/// budget is used up.
pub fn drain_priority_queue(
    queue: &mut VecDeque<TileWork>,
    budget: usize,
    retry_after: Duration,
    now: Instant,
    out: &mut Vec<TileWork>,
)
    ensures
        works_after_priority(
            work::works(old(queue)@),
            work::works(final(queue)@),
            work::works(old(out)@),
            work::works(final(out)@),
            budget as nat,
            retry_after,
            now,
        ),
{
    drop_terminal(queue);
    let ghost q = work::works(queue@);
    let ghost ra = retry_after.nanos as int;
    let ghost b = budget as nat;
    let ghost out0 = work::works(out@);
    let n: usize = queue.len();
    let mut i: usize = 0;
    let mut spent: usize = 0;
    let mut stopped: bool = false;
    assert(q.skip(0) + after_outgoing(q, b, now, ra).take(0) =~= q);
    assert(q.take(0) =~= Seq::empty());
    assert(work::works(out@) =~= out0 + outgoing(q, 0, b, now, ra));
    while i < n
        invariant
            i <= n,
            n == q.len(),
            b == budget,
            ra == retry_after.nanos,
            work::works(queue@) == q.skip(i as int) + after_outgoing(q, b, now, ra).take(i as int),
            queue@.len() == work::works(queue@).len(),
            work::works(out@) == out0 + outgoing(q, i as int, b, now, ra),
            stopped ==> due_bytes(q.take(i as int), now, ra) >= budget,
            !stopped ==> spent == (if due_bytes(q.take(i as int), now, ra) <= usize::MAX {
                due_bytes(q.take(i as int), now, ra) as int
            } else {
                usize::MAX as int
            }),
        decreases n - i,
    {
        let mut w = pop_work(queue);
        assert(w@ == q[i as int]);
        proof {
            assert(q.take(i + 1).drop_last() =~= q.take(i as int));
            assert(q.take(i + 1).last() == q[i as int]);
        }
        if !stopped && w.is_due(now, retry_after) {
            if spent >= budget {
                stopped = true;
            } else {
                w.state = WorkState::InFlight;
                w.last_sent_at = Some(now);
                spent = spent.saturating_add(w.payload.len());
                assert(w@ == q[i as int].sent_at(now));
                emit_work(out, w.duplicate());
                assert(goes_out(q, i as int, b, now, ra));
                assert(outgoing(q, i + 1, b, now, ra) == outgoing(q, i as int, b, now, ra).push(
                    w@,
                ));
                assert(work::works(out@) =~= out0 + outgoing(q, i + 1, b, now, ra));
            }
        }
        push_work(queue, w);
        i = i + 1;
        assert(work::works(queue@) =~= q.skip(i as int) + after_outgoing(q, b, now, ra).take(
            i as int,
        ));
    }
    assert(work::works(queue@) =~= after_outgoing(q, b, now, ra));
}

/// What draining the priority queue does to it and to the output.
pub open spec fn works_after_priority(
    before: Seq<WorkView>,
    after: Seq<WorkView>,
    out_before: Seq<WorkView>,
    out_after: Seq<WorkView>,
    budget: nat,
    retry_after: Duration,
    now: Instant,
) -> bool {
    let q = work::live(before);
    let ra = retry_after.nanos as int;
    &&& after == after_outgoing(q, budget, now, ra)
    &&& out_after == out_before + outgoing(q, q.len() as int, budget, now, ra)
}

// ---------------------------------------------------------------------------
// Refinement queue
// ---------------------------------------------------------------------------

/// The entries of one pass, in queue order.
pub open spec fn with_pass(q: Seq<WorkView>, pass: int) -> Seq<WorkView> {
    q.filter(|w: WorkView| w.pass_idx == pass)
}

/// The entries of this pass and later ones, in queue order.
pub open spec fn from_pass(q: Seq<WorkView>, pass: int) -> Seq<WorkView> {
    q.filter(|w: WorkView| w.pass_idx >= pass)
}

/// The entries of the passes below `pass`, pass by pass.
pub open spec fn before_pass(q: Seq<WorkView>, pass: int) -> Seq<WorkView>
    decreases pass,
{
    if pass <= 0 {
        Seq::empty()
    } else {
        before_pass(q, pass - 1) + with_pass(q, pass - 1)
    }
}

/// The queue without its first `k` entries of `pass`.
pub open spec fn without_first(q: Seq<WorkView>, pass: int, k: nat) -> Seq<WorkView>
    decreases q.len(),
{
    if q.len() == 0 {
        Seq::empty()
    } else {
        let front = without_first(q.drop_last(), pass, k);
        if q.last().pass_idx == pass && with_pass(q.drop_last(), pass).len() < k {
            front
        } else {
            front.push(q.last())
        }
    }
}

/// What goes out when the budget reaches up to the first `k` entries of
/// `pass`: all earlier passes, then those.
pub open spec fn pass_major(q: Seq<WorkView>, pass: int, k: nat) -> Seq<WorkView> {
    before_pass(q, pass) + with_pass(q, pass).take(k as int)
}

/// The budget reaches exactly up to the first `k` entries of `pass`: they fit,
/// and either nothing is left or the next one does not fit.
pub open spec fn budget_reaches(q: Seq<WorkView>, budget: nat, pass: int, k: nat) -> bool {
    &&& 0 <= pass <= 256
    &&& k <= with_pass(q, pass).len()
    &&& work::total_bytes(pass_major(q, pass, k)) <= budget
    &&& (pass == 256 || (k < with_pass(q, pass).len() && work::total_bytes(pass_major(q, pass, k))
        + with_pass(q, pass)[k as int].payload.len() > budget))
}

/// What draining the refinement queue does to it and to the output.
pub open spec fn works_after_refinement(
    before: Seq<WorkView>,
    after: Seq<WorkView>,
    out_before: Seq<WorkView>,
    out_after: Seq<WorkView>,
    budget: nat,
    now: Instant,
) -> bool {
    let q = work::live(before);
    exists|pass: int, k: nat|
        #![trigger budget_reaches(q, budget, pass, k)]
        {
            &&& budget_reaches(q, budget, pass, k)
            &&& out_after == out_before + work::all_sent(pass_major(q, pass, k), now)
            &&& after == without_first(from_pass(q, pass), pass, k)
        }
}

/// Removing at least as many entries of a pass as there are leaves the
/// entries of the other passes.
proof fn without_all(q: Seq<WorkView>, pass: int, k: nat)
    requires
        k >= with_pass(q, pass).len(),
    ensures
        without_first(q, pass, k) == q.filter(|w: WorkView| w.pass_idx != pass),
    decreases q.len(),
{
    let other = |w: WorkView| w.pass_idx != pass;
    if q.len() == 0 {
        assert(q =~= Seq::empty());
        seqs::filter_empty(other);
    } else {
        seqs::filter_last(q, other);
        seqs::filter_last(q, |w: WorkView| w.pass_idx == pass);
        without_all(q.drop_last(), pass, k);
    }
}

/// Bytes of a concatenation.
proof fn total_bytes_add(a: Seq<WorkView>, b: Seq<WorkView>)
    ensures
        work::total_bytes(a + b) == work::total_bytes(a) + work::total_bytes(b),
    decreases b.len(),
{
    if b.len() == 0 {
        assert(a + b =~= a);
    } else {
        assert((a + b).drop_last() =~= a + b.drop_last());
        total_bytes_add(a, b.drop_last());
    }
}

/// The smallest pass number in the queue, or `None` if it is empty.
fn min_pass(queue: &VecDeque<TileWork>) -> (r: Option<u8>)
    ensures
        match r {
            Some(p) => (exists|i: int|
                0 <= i < work::works(queue@).len() && work::works(queue@)[i].pass_idx == p) && (
            forall|i: int|
                0 <= i < work::works(queue@).len() ==> p <= #[trigger] work::works(
                    queue@,
                )[i].pass_idx),
            None => queue@.len() == 0,
        },
{
    let n: usize = queue.len();
    if n == 0 {
        return None;
    }
    let ghost q = work::works(queue@);
    let mut best: u8 = queue[0].pass_idx;
    assert(q[0].pass_idx == best);
    let mut i: usize = 1;
    while i < n
        invariant
            1 <= i <= n,
            n == queue@.len(),
            q == work::works(queue@),
            exists|j: int| 0 <= j < i && q[j].pass_idx == best,
            forall|j: int| 0 <= j < i ==> best <= #[trigger] q[j].pass_idx,
        decreases n - i,
    {
        let p: u8 = queue[i].pass_idx;
        assert(q[i as int].pass_idx == p);
        if p < best {
            best = p;
        }
        i = i + 1;
    }
    Some(best)
}

/// Sends the entries of `pass` in queue order while they fit into the budget.
/// Returns the bytes spent so far and whether an entry did not fit.
fn drain_pass(
    queue: &mut VecDeque<TileWork>,
    pass: u8,
    budget: usize,
    spent_before: usize,
    now: Instant,
    out: &mut Vec<TileWork>,
) -> (r: (usize, bool))
    requires
        spent_before <= budget,
    ensures
        ({
            let q = work::works(old(queue)@);
            let all = with_pass(q, pass as int);
            let sent = work::works(final(out)@).len() - work::works(old(out)@).len();
            let k = sent as nat;
            &&& 0 <= sent <= all.len()
            &&& r.0 <= budget
            &&& r.0 == spent_before + work::total_bytes(all.take(sent))
            &&& work::works(final(out)@) == work::works(old(out)@) + work::all_sent(
                all.take(sent),
                now,
            )
            &&& work::works(final(queue)@) == without_first(q, pass as int, k)
            &&& (r.1 ==> sent < all.len() && r.0 + all[sent].payload.len() > budget)
            &&& (!r.1 ==> sent == all.len())
        }),
{
    let ghost q = work::works(queue@);
    let ghost is_pass = |w: WorkView| w.pass_idx == pass as int;
    let ghost all = with_pass(q, pass as int);
    let ghost out0 = work::works(out@);
    let ghost k: nat = 0;
    let n: usize = queue.len();
    let mut i: usize = 0;
    let mut spent: usize = spent_before;
    let mut stopped: bool = false;
    proof {
        assert(q.take(0) =~= Seq::empty());
        seqs::filter_empty(is_pass);
        assert(q.skip(0) + without_first(q.take(0), pass as int, 0) =~= q);
        assert(all.take(0) =~= Seq::empty());
        assert(out0 + work::all_sent(all.take(0), now) =~= out0);
        pass_prefix(q, pass as int, 0);
    }
    while i < n
        invariant
            i <= n,
            n == q.len(),
            all == with_pass(q, pass as int),
            is_pass == (|w: WorkView| w.pass_idx == pass as int),
            work::works(queue@) == q.skip(i as int) + without_first(
                q.take(i as int),
                pass as int,
                k,
            ),
            queue@.len() == work::works(queue@).len(),
            k <= with_pass(q.take(i as int), pass as int).len(),
            k <= all.len(),
            !stopped ==> k == with_pass(q.take(i as int), pass as int).len(),
            spent_before <= spent <= budget,
            spent == spent_before + work::total_bytes(all.take(k as int)),
            work::works(out@) == out0 + work::all_sent(all.take(k as int), now),
            stopped ==> k < all.len() && spent + all[k as int].payload.len() > budget,
        decreases n - i,
    {
        let mut w = pop_work(queue);
        let ghost before = q.take(i as int);
        let ghost upto = q.take(i + 1);
        proof {
            assert(w@ == q[i as int]);
            assert(upto.drop_last() =~= before);
            assert(upto.last() == w@);
            seqs::filter_last(upto, is_pass);
            pass_prefix(q, pass as int, i + 1);
            pass_prefix(q, pass as int, i as int);
            assert((q.skip(i as int) + without_first(before, pass as int, k)).skip(1) =~= q.skip(
                i + 1,
            ) + without_first(before, pass as int, k));
        }
        let mut keep: bool = true;
        if !stopped && w.pass_idx == pass {
            let cost: usize = w.payload.len();
            proof {
                assert(with_pass(upto, pass as int) =~= with_pass(before, pass as int).push(w@));
                assert(with_pass(upto, pass as int)[k as int] == w@);
                assert(all[k as int] == w@);
            }
            if cost > budget - spent {
                stopped = true;
            } else {
                keep = false;
                proof {
                    without_all(before, pass as int, k);
                    without_all(before, pass as int, k + 1);
                    assert(all.take(k as int + 1).drop_last() =~= all.take(k as int));
                    assert(all.take(k as int + 1).last() == w@);
                    k = k + 1;
                }
                spent = spent + cost;
            }
        }
        if keep {
            push_work(queue, w);
            assert(work::works(queue@) =~= q.skip(i + 1) + without_first(
                upto,
                pass as int,
                k,
            ));
        } else {
            w.last_sent_at = Some(now);
            w.state = WorkState::InFlight;
            emit_work(out, w);
            assert(work::works(queue@) =~= q.skip(i + 1) + without_first(
                upto,
                pass as int,
                k,
            ));
            assert(work::all_sent(all.take(k as int), now) =~= work::all_sent(
                all.take(k - 1),
                now,
            ).push(w@));
            assert(work::works(out@) =~= out0 + work::all_sent(all.take(k as int), now));
        }
        i = i + 1;
    }
    assert(q.take(n as int) =~= q);
    assert(work::works(queue@) =~= without_first(q, pass as int, k));
    assert(work::works(out@).len() - out0.len() == k);
    (spent, stopped)
}

/// The entries of a pass among the first `i` of the queue are the first ones
/// of that pass.
proof fn pass_prefix(q: Seq<WorkView>, pass: int, i: int)
    requires
        0 <= i <= q.len(),
    ensures
        with_pass(q.take(i), pass).len() <= with_pass(q, pass).len(),
        with_pass(q.take(i), pass) == with_pass(q, pass).take(
            with_pass(q.take(i), pass).len() as int,
        ),
    decreases q.len() - i,
{
    if i == q.len() {
        assert(q.take(i) =~= q);
        assert(with_pass(q, pass).take(with_pass(q, pass).len() as int) =~= with_pass(q, pass));
    } else {
        pass_prefix(q, pass, i + 1);
        let upto = q.take(i + 1);
        assert(upto.drop_last() =~= q.take(i));
        seqs::filter_last(upto, |w: WorkView| w.pass_idx == pass);
        assert(with_pass(q.take(i), pass) =~= with_pass(q, pass).take(
            with_pass(q.take(i), pass).len() as int,
        ));
    }
}

/// Passes that do not occur contribute nothing.
proof fn skip_absent(q: Seq<WorkView>, a: int, b: int)
    requires
        0 <= a <= b,
        forall|i: int| 0 <= i < q.len() ==> !(a <= (#[trigger] q[i]).pass_idx < b),
    ensures
        before_pass(q, b) == before_pass(q, a),
        from_pass(q, b) == from_pass(q, a),
    decreases b - a,
{
    if a < b {
        skip_absent(q, a, b - 1);
        seqs::filter_none(q, |w: WorkView| w.pass_idx == b - 1);
        assert(before_pass(q, b) =~= before_pass(q, b - 1));
        seqs::filter_agrees(q, |w: WorkView| w.pass_idx >= b, |w: WorkView| w.pass_idx >= b - 1);
    }
}

/// If the smallest pass among the entries from `a` on is `b`, none lies
/// between.
proof fn nothing_between(q: Seq<WorkView>, a: int, b: int)
    requires
        forall|i: int| 0 <= i < from_pass(q, a).len() ==> b <= (#[trigger] from_pass(q, a)[i]).pass_idx,
    ensures
        forall|i: int| 0 <= i < q.len() ==> !(a <= (#[trigger] q[i]).pass_idx < b),
{
    assert forall|i: int| 0 <= i < q.len() implies !(a <= (#[trigger] q[i]).pass_idx < b) by {
        if a <= q[i].pass_idx {
            seqs::filter_keeps(q, |w: WorkView| w.pass_idx >= a, i);
            let f = from_pass(q, a);
            let k = choose|k: int| 0 <= k < f.len() && f[k] == q[i];
            assert(b <= f[k].pass_idx);
        }
    }
}

/// Drops terminal entries, then sends the rest pass by pass while they fit
/// into the budget; the first entry that does not fit ends the drain.
pub fn drain_refinement_pass_major(
    queue: &mut VecDeque<TileWork>,
    budget: usize,
    now: Instant,
    out: &mut Vec<TileWork>,
)
    ensures
        works_after_refinement(
            work::works(old(queue)@),
            work::works(final(queue)@),
            work::works(old(out)@),
            work::works(final(out)@),
            budget as nat,
            now,
        ),
{
    drop_terminal(queue);
    let ghost q = work::works(queue@);
    let ghost out0 = work::works(out@);
    let ghost done: int = 0;
    let mut spent: usize = 0;
    proof {
        filter_all(q);
        assert(out0 + work::all_sent(before_pass(q, 0), now) =~= out0);
    }
    loop
        invariant
            0 <= done <= 256,
            work::works(queue@) == from_pass(q, done),
            work::works(out@) == out0 + work::all_sent(before_pass(q, done), now),
            spent == work::total_bytes(before_pass(q, done)),
            spent <= budget,
            q == work::live(work::works(old(queue)@)),
            out0 == work::works(old(out)@),
        decreases 256 - done,
    {
        match min_pass(queue) {
            None => {
                proof {
                    assert(from_pass(q, done) =~= Seq::empty());
                    nothing_between(q, done, 256);
                    skip_absent(q, done, 256);
                    seqs::filter_none(q, |w: WorkView| w.pass_idx == 256);
                    assert(pass_major(q, 256, 0) =~= before_pass(q, 256));
                    assert(without_first(from_pass(q, 256), 256, 0) =~= Seq::empty());
                    assert(budget_reaches(q, budget as nat, 256, 0));
                }
                return;
            },
            Some(p) => {
                let ghost pass = p as int;
                proof {
                    nothing_between(q, done, pass);
                    let w = choose|i: int|
                        0 <= i < work::works(queue@).len() && work::works(queue@)[i].pass_idx == p;
                    seqs::filter_member(q, |w: WorkView| w.pass_idx >= done, w);
                    skip_absent(q, done, pass);
                    seqs::filter_twice(
                        q,
                        |w: WorkView| w.pass_idx >= pass,
                        |w: WorkView| w.pass_idx == pass,
                        |w: WorkView| w.pass_idx == pass,
                    );
                    assert(with_pass(from_pass(q, pass), pass) == with_pass(q, pass));
                }
                let ghost out1 = work::works(out@);
                let (total, stopped) = drain_pass(queue, p, budget, spent, now, out);
                let ghost k = (work::works(out@).len() - out1.len()) as nat;
                proof {
                    total_bytes_add(before_pass(q, pass), with_pass(q, pass).take(k as int));
                    assert(work::works(out@) =~= out0 + work::all_sent(
                        pass_major(q, pass, k),
                        now,
                    ));
                }
                if stopped {
                    assert(budget_reaches(q, budget as nat, pass, k));
                    return;
                }
                proof {
                    without_all(from_pass(q, pass), pass, k);
                    seqs::filter_twice(
                        q,
                        |w: WorkView| w.pass_idx >= pass,
                        |w: WorkView| w.pass_idx != pass,
                        |w: WorkView| w.pass_idx >= pass + 1,
                    );
                    assert(with_pass(q, pass).take(k as int) =~= with_pass(q, pass));
                    assert(pass_major(q, pass, k) =~= before_pass(q, pass + 1));
                    done = pass + 1;
                }
                spent = total;
            },
        }
    }
}

/// A queue is the part of it from pass 0 on.
proof fn filter_all(q: Seq<WorkView>)
    ensures
        from_pass(q, 0) == q,
    decreases q.len(),
{
    if q.len() == 0 {
        assert(q =~= Seq::empty());
        seqs::filter_empty(|w: WorkView| w.pass_idx >= 0);
    } else {
        seqs::filter_last(q, |w: WorkView| w.pass_idx >= 0);
        filter_all(q.drop_last());
        assert(q.drop_last().push(q.last()) =~= q);
    }
}

/// What goes out is ordered by pass: every tile's pass `p` before any tile's
/// pass `p + 1`.
pub proof fn pass_major_is_ordered(q: Seq<WorkView>, pass: int, k: nat, i: int, j: int)
    requires
        0 <= pass,
        k <= with_pass(q, pass).len(),
        0 <= i <= j < pass_major(q, pass, k).len(),
    ensures
        pass_major(q, pass, k)[i].pass_idx <= pass_major(q, pass, k)[j].pass_idx <= pass,
{
    let n = before_pass(q, pass).len();
    if j < n {
        before_pass_is_ordered(q, pass, i, j);
    } else {
        seqs::filter_member(q, |w: WorkView| w.pass_idx == pass, j - n);
        if i < n {
            before_pass_is_ordered(q, pass, i, i);
        } else {
            seqs::filter_member(q, |w: WorkView| w.pass_idx == pass, i - n);
        }
    }
}

proof fn before_pass_is_ordered(q: Seq<WorkView>, pass: int, i: int, j: int)
    requires
        0 <= i <= j < before_pass(q, pass).len(),
    ensures
        before_pass(q, pass)[i].pass_idx <= before_pass(q, pass)[j].pass_idx < pass,
    decreases pass,
{
    if pass > 0 {
        let n = before_pass(q, pass - 1).len();
        if j < n {
            before_pass_is_ordered(q, pass - 1, i, j);
        } else {
            seqs::filter_member(q, |w: WorkView| w.pass_idx == pass - 1, j - n);
            if i < n {
                before_pass_is_ordered(q, pass - 1, i, i);
            } else {
                seqs::filter_member(q, |w: WorkView| w.pass_idx == pass - 1, i - n);
            }
        }
    }
}

} // verus!
