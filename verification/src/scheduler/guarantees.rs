//! What the scheduler guarantees its callers, told by the work that goes in
//! and the work that comes out.
use crate::bits;
use crate::fragment_coverage::FragmentCoverage;
use crate::protocol::Codec;
use crate::scheduler::drain;
use crate::scheduler::work;
use crate::scheduler::work::{WorkState, WorkView};
use crate::scheduler::{
    ack_key, awaits_ack, deficit, drained_with, first_acked, not_superseded, resolved_for,
    split_budget, subset_work, ticked, tile_id, SchedulerView,
};
use crate::scheduler::tally;
use crate::seqs;
use crate::time::{Duration, Instant};
use vstd::prelude::*;

verus! {

/// Two entries carry the same piece of a tile: they differ at most in when
/// they were sent and how far they got.
pub open spec fn same_piece(a: WorkView, b: WorkView) -> bool {
    &&& a.tile_x == b.tile_x
    &&& a.tile_y == b.tile_y
    &&& a.generation == b.generation
    &&& a.pass_idx == b.pass_idx
    &&& a.total_passes == b.total_passes
    &&& a.codec == b.codec
    &&& a.payload == b.payload
    &&& a.queued_at == b.queued_at
}

/// The entry is a piece of `q` that was neither acknowledged nor superseded,
/// on its way since `now`.
pub open spec fn sent_from(q: Seq<WorkView>, w: WorkView, now: Instant) -> bool {
    &&& w.state == WorkState::InFlight
    &&& w.last_sent_at == Some(now)
    &&& exists|k: int|
        0 <= k < q.len() && same_piece(#[trigger] q[k], w) && (q[k].state == WorkState::Pending
            || q[k].state == WorkState::InFlight)
}

/// Bytes add up, entry by entry.
pub proof fn bytes_add_up(a: Seq<WorkView>, b: Seq<WorkView>, w: WorkView)
    ensures
        work::total_bytes(a + b) == work::total_bytes(a) + work::total_bytes(b),
        work::total_bytes(seq![w]) == w.payload.len(),
        work::total_bytes(Seq::empty()) == 0,
    decreases b.len(),
{
    reveal_with_fuel(work::total_bytes, 2);
    assert(seq![w].drop_last() =~= Seq::empty());
    assert(seq![w].last() == w);
    if b.len() == 0 {
        assert(a + b =~= a);
    } else {
        assert((a + b).drop_last() =~= a + b.drop_last());
        bytes_add_up(a, b.drop_last(), w);
    }
}

proof fn sent_bytes(q: Seq<WorkView>, now: Instant)
    ensures
        work::total_bytes(work::all_sent(q, now)) == work::total_bytes(q),
    decreases q.len(),
{
    if q.len() > 0 {
        assert(work::all_sent(q, now).drop_last() =~= work::all_sent(q.drop_last(), now));
        sent_bytes(q.drop_last(), now);
    }
}

/// What goes out of the priority queue either is all that is due among the
/// first `n`, or reaches the budget; without its last entry it stays below.
proof fn outgoing_bytes(q: Seq<WorkView>, n: int, budget: nat, now: Instant, ra: int)
    requires
        0 <= n <= q.len(),
    ensures
        ({
            let o = drain::outgoing(q, n, budget, now, ra);
            let due = drain::due_bytes(q.take(n), now, ra);
            &&& work::total_bytes(o) <= due
            &&& work::total_bytes(o) == due || work::total_bytes(o) >= budget
            &&& o.len() > 0 ==> work::total_bytes(o.drop_last()) < budget
            &&& forall|i: int|
                0 <= i < n && q[i].is_due(now, ra) && !(#[trigger] drain::goes_out(
                    q,
                    i,
                    budget,
                    now,
                    ra,
                )) ==> work::total_bytes(o) >= budget
        }),
    decreases n,
{
    let o = drain::outgoing(q, n, budget, now, ra);
    if n > 0 {
        outgoing_bytes(q, n - 1, budget, now, ra);
        assert(q.take(n).drop_last() =~= q.take(n - 1));
        let before = drain::outgoing(q, n - 1, budget, now, ra);
        if drain::goes_out(q, n - 1, budget, now, ra) {
            assert(o.drop_last() =~= before);
        }
    } else {
        assert(q.take(0) =~= Seq::empty());
    }
}

proof fn outgoing_is_from(q: Seq<WorkView>, n: int, budget: nat, now: Instant, ra: int, i: int)
    requires
        0 <= n <= q.len(),
        0 <= i < drain::outgoing(q, n, budget, now, ra).len(),
    ensures
        exists|k: int|
            0 <= k < n && drain::outgoing(q, n, budget, now, ra)[i] == (#[trigger] q[k]).sent_at(now)
                && q[k].is_due(now, ra),
    decreases n,
{
    if n > 0 {
        let before = drain::outgoing(q, n - 1, budget, now, ra);
        if i < before.len() {
            outgoing_is_from(q, n - 1, budget, now, ra, i);
        } else {
            assert(q[n - 1].is_due(now, ra));
        }
    }
}

proof fn before_pass_is_from(q: Seq<WorkView>, pass: int, i: int)
    requires
        0 <= i < drain::before_pass(q, pass).len(),
    ensures
        q.contains(drain::before_pass(q, pass)[i]),
    decreases pass,
{
    if pass > 0 {
        let n = drain::before_pass(q, pass - 1).len();
        if i < n {
            before_pass_is_from(q, pass - 1, i);
        } else {
            seqs::filter_member(q, |w: WorkView| w.pass_idx == pass - 1, i - n);
        }
    }
}

/// The first entry of a pass that was not reached is still there.
proof fn first_left_is_kept(q: Seq<WorkView>, pass: int, k: nat)
    requires
        k < drain::with_pass(q, pass).len(),
    ensures
        drain::without_first(q, pass, k).contains(drain::with_pass(q, pass)[k as int]),
    decreases q.len(),
{
    let is_pass = |w: WorkView| w.pass_idx == pass;
    if q.len() == 0 {
        assert(q =~= Seq::empty());
        seqs::filter_empty(is_pass);
    } else {
        seqs::filter_last(q, is_pass);
        let front = drain::with_pass(q.drop_last(), pass);
        let kept = drain::without_first(q.drop_last(), pass, k);
        let all = drain::without_first(q, pass, k);
        if k < front.len() {
            first_left_is_kept(q.drop_last(), pass, k);
            let j = choose|j: int| 0 <= j < kept.len() && kept[j] == front[k as int];
            assert(all[j] == front[k as int]);
        } else {
            assert(all.last() == q.last());
        }
    }
}

/// The entry is a piece of `q` that was never sent, or that was sent at least
/// `retry_after` ago and not acknowledged since; it is on its way since `now`.
pub open spec fn sent_when_due(
    q: Seq<WorkView>,
    w: WorkView,
    now: Instant,
    retry_after: int,
) -> bool {
    &&& w.state == WorkState::InFlight
    &&& w.last_sent_at == Some(now)
    &&& exists|k: int|
        0 <= k < q.len() && same_piece(#[trigger] q[k], w) && (q[k].state == WorkState::Pending || (
        q[k].state == WorkState::InFlight && (q[k].last_sent_at is None || now.nanos
            >= q[k].last_sent_at->0.nanos + retry_after || (retry_after == 0))))
}

/// How the pieces of a tick are split: the first `n` come from the priority
/// queue and were due, the rest come from the refinement queue.
pub open spec fn splits_at(
    before: SchedulerView,
    after: SchedulerView,
    out: Seq<WorkView>,
    now: Instant,
    n: int,
) -> bool {
    &&& 0 <= n <= out.len()
    &&& forall|i: int|
        0 <= i < n ==> sent_when_due(
            before.priority,
            #[trigger] out[i],
            now,
            2 * before.rtt.nanos as int,
        )
    &&& forall|i: int| n <= i < out.len() ==> sent_from(before.refinement, #[trigger] out[i], now)
}

/// The priority work sent reaches `cap`, unless nothing due is left behind;
/// and it stopped as soon as it did.
pub open spec fn fills_softly(
    after: SchedulerView,
    sent: Seq<WorkView>,
    cap: int,
    now: Instant,
    retry_after: int,
) -> bool {
    &&& sent.len() > 0 ==> work::total_bytes(sent.drop_last()) < cap
    &&& forall|i: int|
        0 <= i < after.priority.len() && (#[trigger] after.priority[i]).last_sent_at != Some(now)
            && (after.priority[i].state == WorkState::Pending || (after.priority[i].state
            == WorkState::InFlight && after.priority[i].last_sent_at is Some && now.nanos
            - after.priority[i].last_sent_at->0.nanos >= retry_after && now.nanos
            >= after.priority[i].last_sent_at->0.nanos)) ==> work::total_bytes(sent) >= cap
}

/// The refinement work sent stays within `cap`, and what is left behind is
/// there because the next piece would not have fitted.
pub open spec fn fills_strictly(after: SchedulerView, sent: Seq<WorkView>, cap: int) -> bool {
    &&& work::total_bytes(sent) <= cap
    &&& after.refinement.len() > 0 ==> exists|i: int|
        0 <= i < after.refinement.len() && work::total_bytes(sent) + (
        #[trigger] after.refinement[i]).payload.len() > cap
}

/// A tick splits its byte budget: while both queues hold work, refinement
/// stays within its share in thousandths of the budget and priority work gets
/// the rest; a queue that is alone gets all of it.  Priority work may run over
/// by the piece that crosses the line, refinement never does.
pub proof fn a_tick_shares_its_budget(
    before: SchedulerView,
    after: SchedulerView,
    out: Seq<WorkView>,
    budget: nat,
    now: Instant,
) -> (n: int)
    requires
        ticked(before, after, out, budget, now),
        before.delivery.fraction_permille <= 1000,
        2 * before.rtt.nanos <= u128::MAX,
    ensures
        splits_at(before, after, out, now, n),
        before.priority.len() > 0 && before.refinement.len() > 0 ==> ({
            let share = budget * before.delivery.fraction_permille / 1000;
            &&& fills_softly(
                after,
                out.take(n),
                budget - share,
                now,
                2 * before.rtt.nanos as int,
            )
            &&& fills_strictly(after, out.skip(n), share)
        }),
        before.refinement.len() == 0 ==> n == out.len() && fills_softly(
            after,
            out,
            budget as int,
            now,
            2 * before.rtt.nanos as int,
        ),
        before.priority.len() == 0 ==> n == 0 && fills_strictly(after, out, budget as int),
{
    let f = before.delivery.fraction_permille;
    let budgets = split_budget(
        budget,
        f,
        before.priority.len() == 0,
        before.refinement.len() == 0,
    );
    let sent = choose|sent: Seq<WorkView>| #[trigger]
        drained_with(before, after, out, sent, budgets.0, budgets.1, now);
    let n = sent.len() as int;
    let ra = Duration { nanos: (2 * before.rtt.nanos) as u128 };
    let q = work::live(before.priority);
    let is_live = |w: WorkView| w.is_live();
    assert(sent =~= drain::outgoing(q, q.len() as int, budgets.0, now, ra.nanos as int));
    outgoing_bytes(q, q.len() as int, budgets.0, now, ra.nanos as int);
    assert forall|i: int| 0 <= i < n implies sent_when_due(
        before.priority,
        #[trigger] sent[i],
        now,
        2 * before.rtt.nanos as int,
    ) by {
        outgoing_is_from(q, q.len() as int, budgets.0, now, ra.nanos as int, i);
        let k = choose|k: int|
            0 <= k < q.len() && sent[i] == (#[trigger] q[k]).sent_at(now) && q[k].is_due(
                now,
                ra.nanos as int,
            );
        seqs::filter_member(before.priority, is_live, k);
        let j = choose|j: int| 0 <= j < before.priority.len() && before.priority[j] == q[k];
        assert(same_piece(before.priority[j], sent[i]));
    }
    assert(budget * f / 1000 <= budget) by (nonlinear_arith)
        requires
            f <= 1000,
    ;
    softly(before, after, sent, budgets.0, now, ra);
    refinement_part(before, after, out, sent, budgets.1, now);
    assert(out.take(n) =~= sent);
    if before.refinement.len() == 0 {
        assert(out =~= sent);
    }
    if before.priority.len() == 0 {
        assert(before.priority =~= Seq::empty());
        seqs::filter_empty(is_live);
        assert(out.skip(0) =~= out);
    }
    n
}

proof fn softly(
    before: SchedulerView,
    after: SchedulerView,
    sent: Seq<WorkView>,
    budget: nat,
    now: Instant,
    ra: Duration,
)
    requires
        drain::works_after_priority(
            before.priority,
            after.priority,
            Seq::empty(),
            sent,
            budget,
            ra,
            now,
        ),
    ensures
        fills_softly(after, sent, budget as int, now, ra.nanos as int),
{
    let q = work::live(before.priority);
    assert(sent =~= drain::outgoing(q, q.len() as int, budget, now, ra.nanos as int));
    outgoing_bytes(q, q.len() as int, budget, now, ra.nanos as int);
    assert forall|i: int|
        0 <= i < after.priority.len() && (#[trigger] after.priority[i]).last_sent_at != Some(now)
            && (after.priority[i].state == WorkState::Pending || (after.priority[i].state
            == WorkState::InFlight && after.priority[i].last_sent_at is Some && now.nanos
            - after.priority[i].last_sent_at->0.nanos >= ra.nanos && now.nanos
            >= after.priority[i].last_sent_at->0.nanos)) implies work::total_bytes(sent)
        >= budget by {
        let w = after.priority[i];
        if drain::goes_out(q, i, budget, now, ra.nanos as int) {
            assert(w == q[i].sent_at(now));
        }
        assert(w == q[i]);
        assert(q[i].is_due(now, ra.nanos as int));
    }
}

proof fn refinement_part(
    before: SchedulerView,
    after: SchedulerView,
    out: Seq<WorkView>,
    sent: Seq<WorkView>,
    budget: nat,
    now: Instant,
)
    requires
        drain::works_after_refinement(
            before.refinement,
            after.refinement,
            sent,
            out,
            budget,
            now,
        ),
    ensures
        sent.len() <= out.len(),
        out.take(sent.len() as int) == sent,
        before.refinement.len() == 0 ==> out == sent,
        forall|i: int|
            sent.len() <= i < out.len() ==> sent_from(before.refinement, #[trigger] out[i], now),
        fills_strictly(after, out.skip(sent.len() as int), budget as int),
{
    let q = work::live(before.refinement);
    let is_live = |w: WorkView| w.is_live();
    let (pass, k): (int, nat) = choose|pass: int, k: nat|
        #![trigger drain::budget_reaches(q, budget, pass, k)]
        {
            &&& drain::budget_reaches(q, budget, pass, k)
            &&& out == sent + work::all_sent(drain::pass_major(q, pass, k), now)
            &&& after.refinement == drain::without_first(drain::from_pass(q, pass), pass, k)
        };
    let gone = drain::pass_major(q, pass, k);
    let n = sent.len() as int;
    assert(out.skip(n) =~= work::all_sent(gone, now));
    assert(out.take(n) =~= sent);
    sent_bytes(gone, now);
    assert forall|i: int| n <= i < out.len() implies sent_from(
        before.refinement,
        #[trigger] out[i],
        now,
    ) by {
        let g = gone[i - n];
        assert(out[i] == g.sent_at(now));
        let m = drain::before_pass(q, pass).len();
        if i - n < m {
            before_pass_is_from(q, pass, i - n);
        } else {
            seqs::filter_member(q, |w: WorkView| w.pass_idx == pass, i - n - m);
        }
        let a = choose|a: int| 0 <= a < q.len() && q[a] == g;
        seqs::filter_member(before.refinement, is_live, a);
        let b = choose|b: int| 0 <= b < before.refinement.len() && before.refinement[b] == g;
        assert(same_piece(before.refinement[b], out[i]));
    }
    if before.refinement.len() == 0 && out.len() > sent.len() {
        assert(sent_from(before.refinement, out[n], now));
        assert(false);
    }
    if pass == 256 {
        seqs::filter_none(q, |w: WorkView| w.pass_idx >= 256);
        assert(after.refinement.len() == 0);
    } else {
        seqs::filter_twice(
            q,
            |w: WorkView| w.pass_idx >= pass,
            |w: WorkView| w.pass_idx == pass,
            |w: WorkView| w.pass_idx == pass,
        );
        let rest = drain::from_pass(q, pass);
        assert(drain::with_pass(rest, pass) == drain::with_pass(q, pass));
        first_left_is_kept(rest, pass, k);
        let next = drain::with_pass(q, pass)[k as int];
        let i = choose|i: int| 0 <= i < after.refinement.len() && after.refinement[i] == next;
        assert(work::total_bytes(out.skip(n)) + after.refinement[i].payload.len() > budget);
    }
}

/// A tick loses nothing: every live priority entry is still queued, in order,
/// and every live refinement entry is either still queued or on its way.
pub proof fn a_tick_loses_nothing(
    before: SchedulerView,
    after: SchedulerView,
    out: Seq<WorkView>,
    budget: nat,
    now: Instant,
) -> (n: int)
    requires
        ticked(before, after, out, budget, now),
        before.delivery.fraction_permille <= 1000,
        2 * before.rtt.nanos <= u128::MAX,
    ensures
        splits_at(before, after, out, now, n),
        after.priority.len() == work::live(before.priority).len(),
        forall|i: int|
            0 <= i < after.priority.len() ==> same_piece(
                #[trigger] after.priority[i],
                work::live(before.priority)[i],
            ),
        after.refinement.len() + out.len() - n == work::live(before.refinement).len(),
{
    let f = before.delivery.fraction_permille;
    let budgets = split_budget(
        budget,
        f,
        before.priority.len() == 0,
        before.refinement.len() == 0,
    );
    let sent = choose|sent: Seq<WorkView>| #[trigger]
        drained_with(before, after, out, sent, budgets.0, budgets.1, now);
    let q = work::live(before.refinement);
    let (pass, k): (int, nat) = choose|pass: int, k: nat|
        #![trigger drain::budget_reaches(q, budgets.1, pass, k)]
        {
            &&& drain::budget_reaches(q, budgets.1, pass, k)
            &&& out == sent + work::all_sent(drain::pass_major(q, pass, k), now)
            &&& after.refinement == drain::without_first(drain::from_pass(q, pass), pass, k)
        };
    passes_partition(q, pass);
    seqs::filter_twice(
        q,
        |w: WorkView| w.pass_idx >= pass,
        |w: WorkView| w.pass_idx == pass,
        |w: WorkView| w.pass_idx == pass,
    );
    assert(drain::with_pass(drain::from_pass(q, pass), pass) == drain::with_pass(q, pass));
    without_first_len(drain::from_pass(q, pass), pass, k);
    refinement_part(before, after, out, sent, budgets.1, now);
    outgoing_all_from(before, sent, out, budgets.0, now);
    sent.len() as int
}

proof fn outgoing_all_from(
    before: SchedulerView,
    sent: Seq<WorkView>,
    out: Seq<WorkView>,
    budget: nat,
    now: Instant,
)
    requires
        ({
            let q = work::live(before.priority);
            let ra = (2 * before.rtt.nanos) as u128;
            sent == Seq::<WorkView>::empty() + drain::outgoing(
                q,
                q.len() as int,
                budget,
                now,
                ra as int,
            )
        }),
        sent.len() <= out.len(),
        out.take(sent.len() as int) == sent,
        2 * before.rtt.nanos <= u128::MAX,
    ensures
        forall|i: int|
            0 <= i < sent.len() ==> sent_when_due(
                before.priority,
                #[trigger] out[i],
                now,
                2 * before.rtt.nanos as int,
            ),
{
    let q = work::live(before.priority);
    let ra = (2 * before.rtt.nanos) as u128 as int;
    assert(sent =~= drain::outgoing(q, q.len() as int, budget, now, ra));
    assert forall|i: int| 0 <= i < sent.len() implies sent_when_due(
        before.priority,
        #[trigger] out[i],
        now,
        2 * before.rtt.nanos as int,
    ) by {
        assert(out[i] == out.take(sent.len() as int)[i]);
        outgoing_is_from(q, q.len() as int, budget, now, ra, i);
        let k = choose|k: int|
            0 <= k < q.len() && sent[i] == (#[trigger] q[k]).sent_at(now) && q[k].is_due(now, ra);
        seqs::filter_member(before.priority, |w: WorkView| w.is_live(), k);
        let j = choose|j: int| 0 <= j < before.priority.len() && before.priority[j] == q[k];
        assert(same_piece(before.priority[j], sent[i]));
    }
}

/// Each entry belongs to a pass below `pass` or from it on.
proof fn passes_partition(q: Seq<WorkView>, pass: int)
    requires
        0 <= pass,
    ensures
        drain::before_pass(q, pass).len() + drain::from_pass(q, pass).len() == q.len(),
    decreases pass,
{
    if pass == 0 {
        partition_len(q, 0);
    } else {
        passes_partition(q, pass - 1);
        pass_len(q, pass - 1);
    }
}

proof fn partition_len(q: Seq<WorkView>, pass: int)
    requires
        pass == 0,
    ensures
        drain::from_pass(q, pass).len() == q.len(),
    decreases q.len(),
{
    let p = |w: WorkView| w.pass_idx >= pass;
    if q.len() == 0 {
        assert(q =~= Seq::empty());
        seqs::filter_empty(p);
    } else {
        seqs::filter_last(q, p);
        partition_len(q.drop_last(), pass);
    }
}

proof fn pass_len(q: Seq<WorkView>, pass: int)
    ensures
        drain::from_pass(q, pass).len() == drain::with_pass(q, pass).len() + drain::from_pass(
            q,
            pass + 1,
        ).len(),
    decreases q.len(),
{
    let a = |w: WorkView| w.pass_idx >= pass;
    let b = |w: WorkView| w.pass_idx == pass;
    let c = |w: WorkView| w.pass_idx >= pass + 1;
    if q.len() == 0 {
        assert(q =~= Seq::empty());
        seqs::filter_empty(a);
        seqs::filter_empty(b);
        seqs::filter_empty(c);
    } else {
        seqs::filter_last(q, a);
        seqs::filter_last(q, b);
        seqs::filter_last(q, c);
        pass_len(q.drop_last(), pass);
    }
}

proof fn without_first_len(q: Seq<WorkView>, pass: int, k: nat)
    ensures
        drain::without_first(q, pass, k).len() == q.len() - (if k < drain::with_pass(
            q,
            pass,
        ).len() {
            k
        } else {
            drain::with_pass(q, pass).len()
        }),
    decreases q.len(),
{
    let is_pass = |w: WorkView| w.pass_idx == pass;
    if q.len() == 0 {
        assert(q =~= Seq::empty());
        seqs::filter_empty(is_pass);
    } else {
        seqs::filter_last(q, is_pass);
        without_first_len(q.drop_last(), pass, k);
    }
}

/// A tick closes a round of delivery.  Ten rounds in which less than half was
/// acknowledged halve the refinement share, ten in which at least four fifths
/// was double it, within 5% and 20%; a round in between takes one off either
/// streak, and a round without emissions changes nothing.
pub proof fn a_tick_judges_delivery(
    before: SchedulerView,
    after: SchedulerView,
    out: Seq<WorkView>,
    budget: nat,
    now: Instant,
)
    requires
        ticked(before, after, out, budget, now),
        before.delivery.wf(),
        before.delivery.emitted + out.len() <= u32::MAX,
    ensures
        ({
            let b = before.delivery;
            let a = after.delivery;
            let emitted = b.emitted + out.len();
            let poor = b.acked * 100 < emitted * 50;
            let good = b.acked * 100 >= emitted * 80;
            &&& emitted == 0 ==> a == b
            &&& emitted > 0 ==> a.emitted == 0 && a.acked == 0
            &&& 50 <= a.fraction_permille <= 200
            &&& emitted > 0 && poor ==> {
                &&& a.high_rounds == 0
                &&& b.low_rounds < 9 ==> a.low_rounds == b.low_rounds + 1 && a.fraction_permille
                    == b.fraction_permille
                &&& b.low_rounds == 9 ==> a.low_rounds == 0 && (b.fraction_permille == 2
                    * a.fraction_permille || (b.fraction_permille == 50 && a.fraction_permille
                    == 50))
            }
            &&& emitted > 0 && good ==> {
                &&& a.low_rounds == 0
                &&& b.high_rounds < 9 ==> a.high_rounds == b.high_rounds + 1
                    && a.fraction_permille == b.fraction_permille
                &&& b.high_rounds == 9 ==> a.high_rounds == 0 && (a.fraction_permille == 2
                    * b.fraction_permille || (b.fraction_permille == 200 && a.fraction_permille
                    == 200))
            }
            &&& emitted > 0 && !poor && !good ==> {
                &&& a.fraction_permille == b.fraction_permille
                &&& b.low_rounds > 0 ==> a.low_rounds + 1 == b.low_rounds
                &&& b.high_rounds > 0 ==> a.high_rounds + 1 == b.high_rounds
                &&& b.low_rounds == 0 ==> a.low_rounds == 0
                &&& b.high_rounds == 0 ==> a.high_rounds == 0
            }
        }),
{
}

/// A tile's new content: its generation moves on by one in a ring of sixteen,
/// all of its waiting work is void and its acknowledgements are forgotten;
/// nothing else changes.
pub proof fn a_bump_touches_one_tile(s: SchedulerView, x: u8, y: u8)
    requires
        s.gens.len() == s.cols * s.rows,
        x < s.cols,
        y < s.rows,
        s.gens[y * s.cols + x] < 16,
    ensures
        ({
            let b = s.bumped(x, y);
            let at = y * s.cols + x;
            let old_gen = s.gens[at];
            &&& b.gens.len() == s.gens.len()
            &&& old_gen < 15 ==> b.gens[at] == old_gen + 1
            &&& old_gen == 15 ==> b.gens[at] == 0
            &&& forall|i: int| 0 <= i < s.gens.len() && i != at ==> #[trigger] b.gens[i] == s.gens[i]
            &&& voided(s.priority, b.priority, x, y)
            &&& voided(s.refinement, b.refinement, x, y)
            &&& forall|g: u8| !b.acks.dom().contains(#[trigger] ack_key(x, y, g))
            &&& forall|x2: u8, y2: u8, g: u8|
                (x2 != x || y2 != y) ==> b.acks.dom().contains(#[trigger] ack_key(x2, y2, g))
                    == s.acks.dom().contains(ack_key(x2, y2, g))
            &&& forall|x2: u8, y2: u8, g: u8|
                (x2 != x || y2 != y) && s.acks.dom().contains(#[trigger] ack_key(x2, y2, g))
                    ==> b.acks[ack_key(x2, y2, g)] == s.acks[ack_key(x2, y2, g)]
            &&& b.cols == s.cols && b.rows == s.rows
            &&& b.rtt == s.rtt
            &&& b.delivery == s.delivery
        }),
{
    assert(0 <= y * s.cols + x < s.cols * s.rows) by (nonlinear_arith)
        requires
            x < s.cols,
            y < s.rows,
    ;
    let b = s.bumped(x, y);
    assert forall|x2: u8, y2: u8, g: u8| (x2 != x || y2 != y) implies b.acks.dom().contains(
        #[trigger] ack_key(x2, y2, g),
    ) == s.acks.dom().contains(ack_key(x2, y2, g)) && (s.acks.dom().contains(ack_key(x2, y2, g))
        ==> b.acks[ack_key(x2, y2, g)] == s.acks[ack_key(x2, y2, g)]) by {
        assert(ack_key(x2, y2, g) == x2 + 0x100 * y2 + 0x1_0000 * g);
    }
    assert forall|g: u8| !b.acks.dom().contains(#[trigger] ack_key(x, y, g)) by {
        assert(ack_key(x, y, g) == x + 0x100 * y + 0x1_0000 * g);
    }
}

/// The queue after a tile's content changed: its waiting work is superseded
/// and otherwise as it was, work of other tiles and finished work is untouched.
pub open spec fn voided(before: Seq<WorkView>, after: Seq<WorkView>, x: u8, y: u8) -> bool {
    &&& before.len() == after.len()
    &&& forall|i: int|
        0 <= i < before.len() ==> {
            let b = before[i];
            let a = #[trigger] after[i];
            &&& same_piece(a, b)
            &&& a.last_sent_at == b.last_sent_at
            &&& b.tile_x == x && b.tile_y == y && b.state != WorkState::Acked ==> a.state
                == WorkState::Superseded
            &&& b.tile_x != x || b.tile_y != y || b.state == WorkState::Acked ==> a.state == b.state
        }
}

/// Sweeping a bumped tile drops its void work and keeps the rest in order.
pub proof fn a_sweep_keeps_what_is_not_void(s: SchedulerView, x: u8, y: u8)
    requires
        s.gens.len() == s.cols * s.rows,
        x < s.cols,
        y < s.rows,
        s.gens[y * s.cols + x] < 16,
    ensures
        ({
            let b = s.bumped_and_swept(x, y);
            &&& b.gens == s.bumped(x, y).gens
            &&& b.acks == s.bumped(x, y).acks
            &&& b.delivery == s.delivery
            &&& b.rtt == s.rtt
            &&& b.cols == s.cols && b.rows == s.rows
            &&& swept(s.priority, b.priority, x, y)
            &&& swept(s.refinement, b.refinement, x, y)
        }),
{
    sweep_of(s.priority, x, y);
    sweep_of(s.refinement, x, y);
}

/// What is left of `before` once a tile's void work and all superseded work
/// is gone.
pub open spec fn swept(before: Seq<WorkView>, after: Seq<WorkView>, x: u8, y: u8) -> bool {
    &&& forall|i: int|
        0 <= i < after.len() ==> before.contains(#[trigger] after[i]) && after[i].state
            != WorkState::Superseded && (after[i].tile_x != x || after[i].tile_y != y
            || after[i].state == WorkState::Acked)
    &&& forall|i: int|
        0 <= i < before.len() && (#[trigger] before[i]).state != WorkState::Superseded && (
        before[i].tile_x != x || before[i].tile_y != y || before[i].state == WorkState::Acked)
            ==> after.contains(before[i])
}

proof fn sweep_of(q: Seq<WorkView>, x: u8, y: u8)
    ensures
        swept(q, not_superseded(work::superseded(q, x, y)), x, y),
{
    let v = work::superseded(q, x, y);
    let p = |w: WorkView| w.state != WorkState::Superseded;
    let after = not_superseded(v);
    assert forall|i: int| 0 <= i < after.len() implies q.contains(#[trigger] after[i])
        && after[i].state != WorkState::Superseded && (after[i].tile_x != x || after[i].tile_y != y
        || after[i].state == WorkState::Acked) by {
        seqs::filter_member(v, p, i);
        let j = choose|j: int| 0 <= j < v.len() && v[j] == after[i];
        assert(v[j] == q[j].superseded_for(x, y));
        assert(q[j] == after[i]);
    }
    assert forall|i: int|
        0 <= i < q.len() && (#[trigger] q[i]).state != WorkState::Superseded && (q[i].tile_x != x
            || q[i].tile_y != y || q[i].state == WorkState::Acked) implies after.contains(q[i]) by {
        assert(v[i] == q[i].superseded_for(x, y));
        seqs::filter_keeps(v, p, i);
    }
}

/// New work waits last in the priority queue, never sent, and a queue with
/// new work is that queue and that work.
pub proof fn new_work_waits(s: SchedulerView, w: WorkView, now: Instant)
    ensures
        ({
            let e = s.enqueued(w, now);
            let n = e.priority.last();
            &&& e.priority.len() == s.priority.len() + 1
            &&& e.priority.drop_last() == s.priority
            &&& n.payload == w.payload && n.codec == w.codec
            &&& n.tile_x == w.tile_x && n.tile_y == w.tile_y && n.generation == w.generation
            &&& n.pass_idx == w.pass_idx && n.total_passes == w.total_passes
            &&& n.queued_at == now
            &&& n.last_sent_at is None
            &&& n.state == WorkState::Pending
            &&& e.refinement == s.refinement && e.gens == s.gens && e.acks == s.acks
            &&& e.delivery == s.delivery && e.rtt == s.rtt
            &&& e.cols == s.cols && e.rows == s.rows
        }),
{
    assert(s.enqueued(w, now).priority.drop_last() =~= s.priority);
}

/// The passes of a refined tile wait last in the refinement queue, in pass
/// order, each numbered and counted.
pub proof fn refinement_waits(
    s: SchedulerView,
    x: u8,
    y: u8,
    generation: u8,
    passes: Seq<Seq<u8>>,
    now: Instant,
)
    ensures
        ({
            let e = s.refined(x, y, generation, passes, now);
            &&& e.refinement.len() == s.refinement.len() + passes.len()
            &&& e.refinement.take(s.refinement.len() as int) == s.refinement
            &&& forall|i: int|
                0 <= i < passes.len() ==> {
                    let n = #[trigger] e.refinement.skip(s.refinement.len() as int)[i];
                    &&& n.payload == passes[i] && n.codec == Codec::Cdf53
                    &&& n.tile_x == x && n.tile_y == y && n.generation == generation
                    &&& n.pass_idx == i % 256 && n.total_passes == passes.len() % 256
                    &&& n.queued_at == now
                    &&& n.last_sent_at is None
                    &&& n.state == WorkState::Pending
                }
            &&& e.priority == s.priority && e.gens == s.gens && e.acks == s.acks
            &&& e.delivery == s.delivery && e.rtt == s.rtt
            &&& e.cols == s.cols && e.rows == s.rows
        }),
{
    let e = s.refined(x, y, generation, passes, now);
    assert(e.refinement.take(s.refinement.len() as int) =~= s.refinement);
}

/// An acknowledged pass is remembered for its tile and generation alone, and
/// counts as delivered the first time only.
pub proof fn a_pass_ack_is_counted_once(s: SchedulerView, x: u8, y: u8, generation: u8, pass: u8)
    requires
        pass < 16,
    ensures
        ({
            let key = ack_key(x, y, generation);
            let b = s.cdf53_acked(x, y, generation, pass);
            let known = s.acks.dom().contains(key) && bits::has_bit(s.acks[key], pass);
            &&& b.acks.dom().contains(key)
            &&& bits::has_bit(b.acks[key], pass)
            &&& forall|p: u8|
                p < 16 && p != pass ==> #[trigger] bits::has_bit(b.acks[key], p) == (
                s.acks.dom().contains(key) && bits::has_bit(s.acks[key], p))
            &&& forall|k: u32|
                k != key ==> b.acks.dom().contains(k) == s.acks.dom().contains(k)
                    && #[trigger] b.acks[k] == s.acks[k]
            &&& known ==> b.delivery == s.delivery
            &&& !known && s.delivery.acked < u32::MAX ==> b.delivery.acked == s.delivery.acked + 1
            &&& s.delivery.acked == u32::MAX ==> b.delivery.acked == u32::MAX
            &&& b.delivery.emitted == s.delivery.emitted
            &&& b.delivery.fraction_permille == s.delivery.fraction_permille
            &&& b.delivery.low_rounds == s.delivery.low_rounds
            &&& b.delivery.high_rounds == s.delivery.high_rounds
            &&& b.priority == s.priority && b.refinement == s.refinement && b.gens == s.gens
            &&& b.rtt == s.rtt && b.cols == s.cols && b.rows == s.rows
        }),
{
    let key = ack_key(x, y, generation);
    let before: u16 = if s.acks.dom().contains(key) {
        s.acks[key]
    } else {
        0
    };
    assert forall|p: u8| p < 16 implies #[trigger] bits::has_bit(bits::with_bit(before, pass), p)
        == (p == pass || bits::has_bit(before, p)) by {
        bits::with_bit_has(before, pass, p);
    }
    assert forall|p: u8| p < 16 implies !(#[trigger] bits::has_bit(0, p)) by {
        bits::zero_has_no_bit(p);
    }
}

/// The same piece in both queues' sense: this tile, version and pass, on its
/// way and not yet acknowledged.
pub open spec fn is_out(w: WorkView, x: u8, y: u8, generation: u8, pass: u8) -> bool {
    &&& w.tile_x == x && w.tile_y == y
    &&& w.generation == generation
    &&& w.pass_idx == pass
    &&& w.state == WorkState::InFlight
}

/// Exactly the first piece of `before` that is out is acknowledged in `after`.
pub open spec fn one_done(
    before: Seq<WorkView>,
    after: Seq<WorkView>,
    x: u8,
    y: u8,
    generation: u8,
    pass: u8,
) -> bool {
    &&& before.len() == after.len()
    &&& (forall|i: int|
        0 <= i < before.len() ==> !is_out(#[trigger] before[i], x, y, generation, pass))
        ==> after == before
    &&& forall|i: int|
        0 <= i < before.len() && is_out(#[trigger] before[i], x, y, generation, pass) && (forall|
            j: int,
        |
            0 <= j < i ==> !is_out(#[trigger] before[j], x, y, generation, pass)) ==> {
            &&& after[i].state == WorkState::Acked
            &&& same_piece(after[i], before[i])
            &&& after[i].last_sent_at == before[i].last_sent_at
            &&& forall|j: int|
                0 <= j < before.len() && j != i ==> #[trigger] after[j] == before[j]
        }
}

/// An acknowledgement finishes one piece: the first one out in the priority
/// queue, or, if there is none, the first one out in the refinement queue.
pub proof fn an_ack_finishes_one_piece(
    s: SchedulerView,
    x: u8,
    y: u8,
    generation: u8,
    pass: u8,
)
    ensures
        ({
            let m = s.marked(x, y, generation, pass);
            &&& one_done(s.priority, m.priority, x, y, generation, pass)
            &&& m.priority != s.priority ==> m.refinement == s.refinement
            &&& m.priority == s.priority ==> one_done(
                s.refinement,
                m.refinement,
                x,
                y,
                generation,
                pass,
            )
            &&& m.gens == s.gens && m.acks == s.acks && m.delivery == s.delivery
            &&& m.rtt == s.rtt && m.cols == s.cols && m.rows == s.rows
        }),
{
    first_of(s.priority, x, y, generation, pass);
    first_of(s.refinement, x, y, generation, pass);
}

proof fn first_of(q: Seq<WorkView>, x: u8, y: u8, generation: u8, pass: u8)
    ensures
        one_done(q, first_acked(q, x, y, generation, pass), x, y, generation, pass),
        awaits_ack(q, x, y, generation, pass) <==> first_acked(q, x, y, generation, pass) != q,
{
    let after = first_acked(q, x, y, generation, pass);
    assert forall|i: int|
        0 <= i < q.len() && is_out(#[trigger] q[i], x, y, generation, pass) && (forall|j: int|
            0 <= j < i ==> !is_out(#[trigger] q[j], x, y, generation, pass)) implies {
        &&& after[i].state == WorkState::Acked
        &&& same_piece(after[i], q[i])
        &&& after[i].last_sent_at == q[i].last_sent_at
        &&& forall|j: int| 0 <= j < q.len() && j != i ==> #[trigger] after[j] == q[j]
    } by {
        assert(crate::scheduler::awaits(q[i], x, y, generation, pass));
        assert forall|j: int| 0 <= j < q.take(i).len() implies !crate::scheduler::awaits(
            #[trigger] q.take(i)[j],
            x,
            y,
            generation,
            pass,
        ) by {
            assert(!is_out(q[j], x, y, generation, pass));
        }
        assert forall|j: int| 0 <= j < q.len() && j != i implies #[trigger] after[j] == q[j] by {
            if j > i {
                assert(q.take(j)[i] == q[i]);
            } else {
                assert(!is_out(q[j], x, y, generation, pass));
            }
        }
    }
    if awaits_ack(q, x, y, generation, pass) {
        let i = choose|i: int|
            0 <= i < q.len() && crate::scheduler::awaits(
                #[trigger] q[i],
                x,
                y,
                generation,
                pass,
            );
        let first = earliest(q, x, y, generation, pass, i);
        assert(after[first] != q[first]);
    } else {
        assert(after =~= q);
    }
    if forall|i: int| 0 <= i < q.len() ==> !is_out(#[trigger] q[i], x, y, generation, pass) {
        assert forall|i: int| 0 <= i < q.len() implies after[i] == q[i] by {
            assert(!is_out(q[i], x, y, generation, pass));
        }
        assert(after =~= q);
    }
}

proof fn earliest(q: Seq<WorkView>, x: u8, y: u8, generation: u8, pass: u8, i: int) -> (r: int)
    requires
        0 <= i < q.len(),
        is_out(q[i], x, y, generation, pass),
    ensures
        0 <= r <= i,
        is_out(q[r], x, y, generation, pass),
        !awaits_ack(q.take(r), x, y, generation, pass),
    decreases i,
{
    if awaits_ack(q.take(i), x, y, generation, pass) {
        let j = choose|j: int|
            0 <= j < q.take(i).len() && crate::scheduler::awaits(
                #[trigger] q.take(i)[j],
                x,
                y,
                generation,
                pass,
            );
        assert(q.take(i)[j] == q[j]);
        earliest(q, x, y, generation, pass, j)
    } else {
        i
    }
}

/// Distinct tiles and versions never share acknowledgements.
pub proof fn versions_do_not_alias(x: u8, y: u8, g: u8, x2: u8, y2: u8, g2: u8)
    requires
        ack_key(x, y, g) == ack_key(x2, y2, g2),
    ensures
        x == x2 && y == y2 && g == g2,
{
    assert(ack_key(x, y, g) == x + 0x100 * y + 0x1_0000 * g);
    assert(ack_key(x2, y2, g2) == x2 + 0x100 * y2 + 0x1_0000 * g2);
}

/// A resized grid starts over: every tile at generation 0 and nothing queued
/// or acknowledged; what was learned of the link stays.
pub proof fn a_resized_grid_starts_over(s: SchedulerView, cols: u32, rows: u32)
    ensures
        ({
            let r = s.resized(cols, rows);
            &&& r.cols == cols && r.rows == rows
            &&& r.gens.len() == cols * rows
            &&& forall|i: int| 0 <= i < cols * rows ==> #[trigger] r.gens[i] == 0
            &&& r.priority.len() == 0 && r.refinement.len() == 0
            &&& forall|k: u32| !r.acks.dom().contains(k)
            &&& r.rtt == s.rtt
            &&& r.delivery == s.delivery
        }),
{
    assert(cols * rows >= 0) by (nonlinear_arith);
}

/// The passes that a resent subset holds: strictly rising, each asked for by
/// the mask and each with the payload at its rank among the passes asked for.
pub proof fn a_subset_is_what_was_asked(
    x: u8,
    y: u8,
    generation: u8,
    mask: u16,
    payloads: Seq<Vec<u8>>,
    now: Instant,
    n: u8,
)
    requires
        n <= 16,
        payloads.len() >= bits::count_below(mask, n),
    ensures
        ({
            let w = subset_work(x, y, generation, mask, n, payloads, now);
            &&& w.len() == bits::count_below(mask, n)
            &&& forall|i: int|
                0 <= i < w.len() ==> {
                    let e = #[trigger] w[i];
                    &&& e.tile_x == x && e.tile_y == y && e.generation == generation
                    &&& e.pass_idx < n && bits::has_bit(mask, e.pass_idx)
                    &&& bits::count_below(mask, e.pass_idx) == i
                    &&& e.payload == payloads[i]@
                    &&& e.codec == Codec::Cdf53
                    &&& e.total_passes == 14
                    &&& e.state == WorkState::Pending
                    &&& e.last_sent_at is None
                    &&& e.queued_at == now
                }
            &&& forall|i: int, j: int|
                0 <= i < j < w.len() ==> (#[trigger] w[i]).pass_idx < (#[trigger] w[j]).pass_idx
        }),
    decreases n,
{
    if n > 0 {
        a_subset_is_what_was_asked(x, y, generation, mask, payloads, now, (n - 1) as u8);
    }
}

/// What a bump reports: one entry for each waiting piece of the tile, in
/// order, with its version, pass and codec, and the palette that a palette
/// piece refers to.
pub proof fn a_bump_reports_waiting_pieces(q: Seq<WorkView>, x: u8, y: u8)
    ensures
        ({
            let r = resolved_for(q, x, y);
            let mine = q.filter(|w: WorkView| w.tile_x == x && w.tile_y == y && (w.state
                == WorkState::Pending || w.state == WorkState::InFlight));
            &&& r.len() == mine.len()
            &&& forall|i: int|
                0 <= i < r.len() ==> {
                    let e = #[trigger] r[i];
                    let w = mine[i];
                    &&& e.tile_x == x && e.tile_y == y
                    &&& e.generation == w.generation && e.pass == w.pass_idx
                    &&& e.codec == w.codec
                    &&& !e.via_ack
                    &&& (w.codec == Codec::PalRle && w.payload.len() >= 2) ==> e.palette_id == Some(
                        w.payload[1],
                    )
                    &&& (w.codec != Codec::PalRle || w.payload.len() < 2) ==> e.palette_id is None
                }
        }),
    decreases q.len(),
{
    let p = |w: WorkView|
        w.tile_x == x && w.tile_y == y && (w.state == WorkState::Pending || w.state
            == WorkState::InFlight);
    if q.len() == 0 {
        assert(q =~= Seq::empty());
        seqs::filter_empty(p);
    } else {
        seqs::filter_last(q, p);
        a_bump_reports_waiting_pieces(q.drop_last(), x, y);
    }
}

/// A tile is in deficit when some piece of it in the queue is not
/// acknowledged, and tiles are told apart by their coordinates.
pub proof fn deficit_is_of_unacked_tiles(q: Seq<WorkView>, x: u8, y: u8)
    ensures
        deficit(q).finite(),
        deficit(q).contains((x + 256 * y) as u16) <==> exists|i: int|
            0 <= i < q.len() && (#[trigger] q[i]).tile_x == x && q[i].tile_y == y && q[i].state
                != WorkState::Acked,
    decreases q.len(),
{
    if q.len() > 0 {
        let front = q.drop_last();
        deficit_is_of_unacked_tiles(front, x, y);
        assert(tile_id(q.last()) == q.last().tile_x + 256 * q.last().tile_y);
        assert((x + 256 * y) as u16 == x + 256 * y);
        let id = (x + 256 * y) as u16;
        if deficit(q).contains(id) {
            if deficit(front).contains(id) {
                let i = choose|i: int|
                    0 <= i < front.len() && (#[trigger] front[i]).tile_x == x && front[i].tile_y
                        == y && front[i].state != WorkState::Acked;
                assert(q[i] == front[i]);
            } else {
                assert(q[q.len() - 1].tile_x == x && q[q.len() - 1].tile_y == y);
            }
        }
        if exists|i: int|
            0 <= i < q.len() && (#[trigger] q[i]).tile_x == x && q[i].tile_y == y && q[i].state
                != WorkState::Acked {
            let i = choose|i: int|
                0 <= i < q.len() && (#[trigger] q[i]).tile_x == x && q[i].tile_y == y && q[i].state
                    != WorkState::Acked;
            if i < front.len() {
                assert(front[i] == q[i]);
            }
        }
    }
}

/// When work is due: at once if it was never sent, and once the retry time
/// has passed since it was; never once it is acknowledged or void.
pub proof fn work_is_due_in_time(w: WorkView, t: Instant, now: Instant, retry_after: int)
    requires
        t.nanos <= now.nanos,
    ensures
        w.state == WorkState::Pending ==> w.is_due(now, retry_after),
        w.state == WorkState::InFlight && w.last_sent_at is None ==> w.is_due(now, retry_after),
        w.state == WorkState::InFlight && w.last_sent_at == Some(t) ==> (w.is_due(now, retry_after)
            <==> now.nanos >= t.nanos + retry_after),
        w.state == WorkState::Acked || w.state == WorkState::Superseded ==> !w.is_due(
            now,
            retry_after,
        ),
        w.sent_at(t).is_due(now, retry_after) <==> now.nanos >= t.nanos + retry_after,
        same_piece(w.sent_at(t), w),
{
}

proof fn occurrences_add(a: Seq<tally::TileVersion>, b: Seq<tally::TileVersion>, t: tally::TileVersion)
    ensures
        tally::occurrences(a + b, t) == tally::occurrences(a, t) + tally::occurrences(b, t),
    decreases b.len(),
{
    if b.len() == 0 {
        assert(a + b =~= a);
    } else {
        assert((a + b).drop_last() =~= a + b.drop_last());
        occurrences_add(a, b.drop_last(), t);
    }
}

/// The pieces of one version of a tile that are waiting in `q`.
pub open spec fn waiting(q: Seq<WorkView>, x: u8, y: u8, g: u8) -> Seq<WorkView> {
    q.filter(
        |w: WorkView|
            w.tile_x == x && w.tile_y == y && w.generation == g && (w.state == WorkState::Pending
                || w.state == WorkState::InFlight),
    )
}

/// The refinement fragments of one version of a tile that are on their way.
pub open spec fn under_way(c: Seq<FragmentCoverage>, x: u8, y: u8, g: u8) -> Seq<FragmentCoverage> {
    c.filter(
        |f: FragmentCoverage|
            f.tile_x == x && f.tile_y == y && f.generation == g && f.codec == Codec::Cdf53,
    )
}

proof fn waiting_is_counted(q: Seq<WorkView>, x: u8, y: u8, g: u8)
    ensures
        tally::occurrences(tally::live_versions(q), (x, y, g)) == waiting(q, x, y, g).len(),
    decreases q.len(),
{
    let p = |w: WorkView|
        w.tile_x == x && w.tile_y == y && w.generation == g && (w.state == WorkState::Pending
            || w.state == WorkState::InFlight);
    if q.len() == 0 {
        assert(q =~= Seq::empty());
        seqs::filter_empty(p);
    } else {
        seqs::filter_last(q, p);
        waiting_is_counted(q.drop_last(), x, y, g);
        let v = tally::live_versions(q);
        if !q.last().is_terminal() {
            assert(v.drop_last() =~= tally::live_versions(q.drop_last()));
        }
    }
}

proof fn under_way_is_counted(c: Seq<FragmentCoverage>, x: u8, y: u8, g: u8)
    ensures
        tally::occurrences(tally::covered_versions(c), (x, y, g)) == under_way(c, x, y, g).len(),
    decreases c.len(),
{
    let p = |f: FragmentCoverage|
        f.tile_x == x && f.tile_y == y && f.generation == g && f.codec == Codec::Cdf53;
    if c.len() == 0 {
        assert(c =~= Seq::empty());
        seqs::filter_empty(p);
    } else {
        seqs::filter_last(c, p);
        under_way_is_counted(c.drop_last(), x, y, g);
        let v = tally::covered_versions(c);
        if c.last().codec == Codec::Cdf53 {
            assert(v.drop_last() =~= tally::covered_versions(c.drop_last()));
        }
    }
}

/// The snapshot of pending refinement has one line for each version of a tile
/// that still has pieces waiting or under way, and the line counts them, up to
/// 255.
pub proof fn a_snapshot_counts_pieces(
    lines: Seq<(u8, u8, u8, u8)>,
    q: Seq<WorkView>,
    c: Seq<FragmentCoverage>,
    x: u8,
    y: u8,
    g: u8,
)
    requires
        tally::is_tally(lines, tally::live_versions(q) + tally::covered_versions(c)),
    ensures
        ({
            let n = waiting(q, x, y, g).len() + under_way(c, x, y, g).len();
            &&& n == 0 ==> forall|k: u8| !lines.contains((x, y, g, k))
            &&& 0 < n <= 255 ==> lines.contains((x, y, g, n as u8))
            &&& n > 255 ==> lines.contains((x, y, g, 255))
        }),
        forall|i: int, j: int|
            0 <= i < j < lines.len() ==> !((#[trigger] lines[i]).0 == (#[trigger] lines[j]).0
                && lines[i].1 == lines[j].1 && lines[i].2 == lines[j].2),
{
    let s = tally::live_versions(q) + tally::covered_versions(c);
    let t = (x, y, g);
    occurrences_add(tally::live_versions(q), tally::covered_versions(c), t);
    waiting_is_counted(q, x, y, g);
    under_way_is_counted(c, x, y, g);
    let n = tally::occurrences(s, t);
    if n > 0 {
        assert(tally::listed(lines, t));
        let i = choose|i: int| 0 <= i < lines.len() && tally::version_of(#[trigger] lines[i]) == t;
        assert(lines[i] == (x, y, g, tally::capped(n)));
    } else {
        assert forall|k: u8| !lines.contains((x, y, g, k)) by {
            if lines.contains((x, y, g, k)) {
                let i = choose|i: int| 0 <= i < lines.len() && lines[i] == (x, y, g, k);
                assert(tally::version_of(lines[i]) == t);
            }
        }
    }
    assert forall|i: int, j: int| 0 <= i < j < lines.len() implies !((#[trigger] lines[i]).0 == (
    #[trigger] lines[j]).0 && lines[i].1 == lines[j].1 && lines[i].2 == lines[j].2) by {
        assert(tally::version_of(lines[i]) != tally::version_of(lines[j]));
    }
}

/// Setting a bit that was clear adds one to the number of bits, setting one
/// that was set adds none, and an empty mask has none.
pub proof fn bits_are_counted(mask: u16, pass: u8)
    requires
        pass < 16,
    ensures
        bits::count_bits(0) == 0,
        bits::has_bit(mask, pass) ==> bits::count_bits(bits::with_bit(mask, pass))
            == bits::count_bits(mask),
        !bits::has_bit(mask, pass) ==> bits::count_bits(bits::with_bit(mask, pass))
            == bits::count_bits(mask) + 1,
{
    count_after(mask, pass, 16);
    none_below(16);
}

proof fn none_below(n: u8)
    ensures
        bits::count_below(0, n) == 0,
    decreases n,
{
    if n > 0 {
        none_below((n - 1) as u8);
        bits::zero_has_no_bit((n - 1) as u8);
    }
}

proof fn count_after(mask: u16, pass: u8, n: u8)
    requires
        pass < 16,
        n <= 16,
    ensures
        bits::count_below(bits::with_bit(mask, pass), n) == bits::count_below(mask, n) + (if pass
            < n && !bits::has_bit(mask, pass) {
            1nat
        } else {
            0nat
        }),
    decreases n,
{
    if n > 0 {
        count_after(mask, pass, (n - 1) as u8);
        bits::with_bit_has(mask, pass, (n - 1) as u8);
    }
}

/// The tiles reported as unacknowledged are those of the candidates that have
/// fewer acknowledged passes than they were given, in order.
pub proof fn unacked_tiles_are_behind(
    s: crate::scheduler::Scheduler,
    a: Seq<((u8, u8), u8, u8)>,
    b: Seq<((u8, u8), u8, u8)>,
    c: ((u8, u8), u8, u8),
)
    ensures
        s.unacked_among(a + b) == s.unacked_among(a) + s.unacked_among(b),
        s.unacked_among(Seq::empty()) == Seq::<(u8, u8)>::empty(),
        ({
            let key = ack_key((c.0).0, (c.0).1, c.1);
            let done = if s.acks().dom().contains(key) {
                bits::count_bits(s.acks()[key])
            } else {
                0
            };
            &&& done < c.2 ==> s.unacked_among(seq![c]) == seq![c.0]
            &&& done >= c.2 ==> s.unacked_among(seq![c]) == Seq::<(u8, u8)>::empty()
        }),
    decreases b.len(),
{
    reveal_with_fuel(crate::scheduler::Scheduler::unacked_among, 2);
    none_below(16);
    assert(seq![c].drop_last() =~= Seq::empty());
    assert(seq![c].last() == c);
    assert(Seq::<(u8, u8)>::empty().push(c.0) =~= seq![c.0]);
    if b.len() == 0 {
        assert(a + b =~= a);
        assert(s.unacked_among(a) + s.unacked_among(b) =~= s.unacked_among(a));
    } else {
        assert((a + b).drop_last() =~= a + b.drop_last());
        assert((a + b).last() == b.last());
        unacked_tiles_are_behind(s, a, b.drop_last(), c);
        assert(s.unacked_among(a + b) =~= s.unacked_among(a) + s.unacked_among(b));
    }
}

/// What lies in a queue is what its entries hold, in order.
pub proof fn queues_keep_their_order(q: Seq<work::TileWork>, i: int)
    requires
        0 <= i < q.len(),
    ensures
        work::works(q).len() == q.len(),
        work::works(q)[i] == q[i]@,
        work::works(q)[i].payload == q[i].payload@,
        work::works(q)[i].tile_x == q[i].tile_x && work::works(q)[i].tile_y == q[i].tile_y,
        work::works(q)[i].generation == q[i].generation && work::works(q)[i].pass_idx
            == q[i].pass_idx,
        work::works(q)[i].codec == q[i].codec && work::works(q)[i].state == q[i].state,
{
}

/// The pieces `u` and `v` stand in the queue in this order.
pub open spec fn stand_in_order(q: Seq<WorkView>, u: WorkView, v: WorkView) -> bool {
    exists|a: int, b: int|
        0 <= a < b < q.len() && same_piece(#[trigger] q[a], u) && same_piece(#[trigger] q[b], v)
}

/// What a tick sends of one queue keeps an order: priority work that of its
/// queue, refinement pass after pass.
pub proof fn a_tick_sends_in_order(
    before: SchedulerView,
    after: SchedulerView,
    out: Seq<WorkView>,
    budget: nat,
    now: Instant,
) -> (n: int)
    requires
        ticked(before, after, out, budget, now),
        before.delivery.fraction_permille <= 1000,
        2 * before.rtt.nanos <= u128::MAX,
    ensures
        0 <= n <= out.len(),
        forall|i: int, j: int|
            n <= i <= j < out.len() ==> (#[trigger] out[i]).pass_idx <= (#[trigger] out[j]).pass_idx,
        forall|i: int, j: int|
            0 <= i < j < n ==> stand_in_order(
                work::live(before.priority),
                #[trigger] out[i],
                #[trigger] out[j],
            ),
        before.refinement.len() == 0 ==> n == out.len(),
        before.priority.len() == 0 ==> n == 0,
{
    let budgets = split_budget(
        budget,
        before.delivery.fraction_permille,
        before.priority.len() == 0,
        before.refinement.len() == 0,
    );
    let sent = choose|sent: Seq<WorkView>| #[trigger]
        drained_with(before, after, out, sent, budgets.0, budgets.1, now);
    let ra = (2 * before.rtt.nanos) as u128 as int;
    let q = work::live(before.priority);
    let r = work::live(before.refinement);
    let n = sent.len() as int;
    assert(sent =~= drain::outgoing(q, q.len() as int, budgets.0, now, ra));
    refinement_part(before, after, out, sent, budgets.1, now);
    let (pass, k): (int, nat) = choose|pass: int, k: nat|
        #![trigger drain::budget_reaches(r, budgets.1, pass, k)]
        {
            &&& drain::budget_reaches(r, budgets.1, pass, k)
            &&& out == sent + work::all_sent(drain::pass_major(r, pass, k), now)
            &&& after.refinement == drain::without_first(drain::from_pass(r, pass), pass, k)
        };
    let gone = drain::pass_major(r, pass, k);
    assert forall|i: int, j: int| n <= i <= j < out.len() implies (#[trigger] out[i]).pass_idx <= (
    #[trigger] out[j]).pass_idx by {
        drain::pass_major_is_ordered(r, pass, k, i - n, j - n);
        assert(out[i] == gone[i - n].sent_at(now));
        assert(out[j] == gone[j - n].sent_at(now));
    }
    assert forall|i: int, j: int| 0 <= i < j < n implies stand_in_order(
        q,
        #[trigger] out[i],
        #[trigger] out[j],
    ) by {
        let (a, b) = outgoing_in_order(q, q.len() as int, budgets.0, now, ra, i, j);
        assert(out[i] == sent[i]);
        assert(out[j] == sent[j]);
        assert(same_piece(q[a], out[i]) && same_piece(q[b], out[j]));
    }
    if before.priority.len() == 0 {
        assert(before.priority =~= Seq::empty());
        seqs::filter_empty(|w: WorkView| w.is_live());
    }
    n
}

proof fn outgoing_in_order(
    q: Seq<WorkView>,
    n: int,
    budget: nat,
    now: Instant,
    ra: int,
    i: int,
    j: int,
) -> (r: (int, int))
    requires
        0 <= n <= q.len(),
        0 <= i < j < drain::outgoing(q, n, budget, now, ra).len(),
    ensures
        0 <= r.0 < r.1 < n,
        drain::outgoing(q, n, budget, now, ra)[i] == q[r.0].sent_at(now),
        drain::outgoing(q, n, budget, now, ra)[j] == q[r.1].sent_at(now),
    decreases n,
{
    let before = drain::outgoing(q, n - 1, budget, now, ra);
    if j < before.len() {
        outgoing_in_order(q, n - 1, budget, now, ra, i, j)
    } else {
        outgoing_is_from(q, n - 1, budget, now, ra, i);
        let a = choose|k: int|
            0 <= k < n - 1 && before[i] == (#[trigger] q[k]).sent_at(now) && q[k].is_due(now, ra);
        (a, n - 1)
    }
}

/// Passes are counted in sixteens.
pub proof fn passes_come_round(s: SchedulerView, x: u8, y: u8, generation: u8, pass: u8)
    ensures
        s.cdf53_acked(x, y, generation, pass) == s.cdf53_acked(
            x,
            y,
            generation,
            (pass % 16) as u8,
        ),
{
}

/// A bit of a mask is the digit at its place in base two.
pub proof fn bits_are_digits(mask: u16, i: u8)
    requires
        i < 16,
    ensures
        bits::has_bit(mask, i) <==> (mask >> (i as u16)) % 2 == 1,
        bits::has_bit(bits::with_bit(0, i), i),
{
    bits::with_bit_has(0, i, i);
    assert(i < 16 ==> ((mask & (1u16 << (i as u16))) != 0 <==> (mask >> (i as u16)) % 2 == 1))
        by (bit_vector);
}

/// Work that was sent later than now waits its whole time.
pub proof fn work_sent_later_waits(w: WorkView, t: Instant, now: Instant, retry_after: int)
    requires
        now.nanos < t.nanos,
    ensures
        w.sent_at(t).is_due(now, retry_after) <==> retry_after <= 0,
{
}

} // verus!
