//! Facts about filtered sequences.
use vstd::prelude::*;

verus! {

/// A filter keeps or drops the last entry.
pub proof fn filter_last<A>(s: Seq<A>, pred: spec_fn(A) -> bool)
    requires
        s.len() > 0,
    ensures
        s.filter(pred) == (if pred(s.last()) {
            s.drop_last().filter(pred).push(s.last())
        } else {
            s.drop_last().filter(pred)
        }),
{
    reveal(Seq::filter);
}

/// A filter of nothing is nothing.
pub proof fn filter_empty<A>(pred: spec_fn(A) -> bool)
    ensures
        Seq::<A>::empty().filter(pred) == Seq::<A>::empty(),
{
    reveal(Seq::filter);
}

/// Filters that agree on every entry give the same result.
pub proof fn filter_agrees<A>(
    s: Seq<A>,
    p: spec_fn(A) -> bool,
    q: spec_fn(A) -> bool,
)
    requires
        forall|i: int| 0 <= i < s.len() ==> p(#[trigger] s[i]) == q(s[i]),
    ensures
        s.filter(p) == s.filter(q),
    decreases s.len(),
{
    if s.len() == 0 {
        assert(s =~= Seq::empty());
        filter_empty(p);
        filter_empty(q);
    } else {
        filter_last(s, p);
        filter_last(s, q);
        filter_agrees(s.drop_last(), p, q);
    }
}

/// A filter that keeps every entry changes nothing.
pub proof fn filter_all<A>(s: Seq<A>, p: spec_fn(A) -> bool)
    requires
        forall|i: int| 0 <= i < s.len() ==> p(#[trigger] s[i]),
    ensures
        s.filter(p) == s,
    decreases s.len(),
{
    if s.len() == 0 {
        assert(s =~= Seq::empty());
        filter_empty(p);
    } else {
        assert(p(s[s.len() - 1]));
        filter_last(s, p);
        filter_all(s.drop_last(), p);
        assert(s.drop_last().push(s.last()) =~= s);
    }
}

/// A filter that drops every entry gives nothing.
pub proof fn filter_none<A>(s: Seq<A>, p: spec_fn(A) -> bool)
    requires
        forall|i: int| 0 <= i < s.len() ==> !p(#[trigger] s[i]),
    ensures
        s.filter(p) == Seq::<A>::empty(),
    decreases s.len(),
{
    if s.len() == 0 {
        assert(s =~= Seq::empty());
        filter_empty(p);
    } else {
        filter_last(s, p);
        filter_none(s.drop_last(), p);
    }
}

/// Filtering twice is filtering by both.
pub proof fn filter_twice<A>(
    s: Seq<A>,
    p: spec_fn(A) -> bool,
    q: spec_fn(A) -> bool,
    both: spec_fn(A) -> bool,
)
    requires
        forall|w: A| #[trigger] both(w) == (p(w) && q(w)),
    ensures
        s.filter(p).filter(q) == s.filter(both),
    decreases s.len(),
{
    if s.len() == 0 {
        assert(s =~= Seq::empty());
        filter_empty(p);
        filter_empty(q);
        filter_empty(both);
    } else {
        let last = s.last();
        filter_last(s, p);
        filter_last(s, both);
        filter_twice(s.drop_last(), p, q, both);
        if p(last) {
            let t = s.drop_last().filter(p).push(last);
            filter_last(t, q);
            assert(t.drop_last() =~= s.drop_last().filter(p));
        }
    }
}

/// A filter keeps or drops the first entry.
pub proof fn filter_first<A>(s: Seq<A>, pred: spec_fn(A) -> bool)
    requires
        s.len() > 0,
    ensures
        s.filter(pred) == (if pred(s[0]) {
            seq![s[0]] + s.skip(1).filter(pred)
        } else {
            s.skip(1).filter(pred)
        }),
    decreases s.len(),
{
    let rest = s.skip(1);
    filter_last(s, pred);
    if s.len() == 1 {
        assert(s.drop_last() =~= Seq::empty());
        assert(rest =~= Seq::empty());
        filter_empty(pred);
        assert(Seq::<A>::empty().push(s[0]) =~= seq![s[0]] + Seq::<A>::empty());
    } else {
        filter_first(s.drop_last(), pred);
        filter_last(rest, pred);
        assert(s.drop_last().skip(1) =~= rest.drop_last());
        assert(rest.last() == s.last());
        let inner = rest.drop_last().filter(pred);
        assert((seq![s[0]] + inner).push(s.last()) =~= seq![s[0]] + inner.push(s.last()));
    }
}

/// Every entry that a filter keeps satisfies it and comes from the sequence.
pub proof fn filter_member<A>(s: Seq<A>, p: spec_fn(A) -> bool, i: int)
    requires
        0 <= i < s.filter(p).len(),
    ensures
        p(s.filter(p)[i]),
        s.contains(s.filter(p)[i]),
    decreases s.len(),
{
    if s.len() == 0 {
        assert(s =~= Seq::empty());
        filter_empty(p);
    } else {
        filter_last(s, p);
        if p(s.last()) && i == s.filter(p).len() - 1 {
            assert(s[s.len() - 1] == s.last());
        } else {
            filter_member(s.drop_last(), p, i);
            let x = s.drop_last().filter(p)[i];
            let k = choose|k: int| 0 <= k < s.drop_last().len() && s.drop_last()[k] == x;
            assert(s[k] == x);
        }
    }
}

/// An entry that satisfies a filter is kept by it.
pub proof fn filter_keeps<A>(s: Seq<A>, p: spec_fn(A) -> bool, i: int)
    requires
        0 <= i < s.len(),
        p(s[i]),
    ensures
        s.filter(p).contains(s[i]),
    decreases s.len(),
{
    filter_last(s, p);
    if i == s.len() - 1 {
        let f = s.filter(p);
        assert(f[f.len() - 1] == s[i]);
    } else {
        filter_keeps(s.drop_last(), p, i);
        let front = s.drop_last().filter(p);
        let k = choose|k: int| 0 <= k < front.len() && front[k] == s[i];
        assert(s.filter(p)[k] == s[i]);
    }
}

} // verus!
