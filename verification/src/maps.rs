//! Walking through maps.
use std::collections::HashMap;
use vstd::prelude::*;

verus! {

broadcast use vstd::std_specs::hash::group_hash_axioms;

/// The keys of a map, in some order.
pub fn key_list<V>(m: &HashMap<u64, V>) -> (keys: Vec<u64>)
    ensures
        keys@.no_duplicates(),
        keys@.to_set() == m@.dom(),
{
    let mut keys: Vec<u64> = Vec::new();
    for k in it: m.keys()
        invariant
            it.seq().unref().to_set() == m@.dom(),
            it.seq().no_duplicates(),
            keys@ == it.seq().take(it.index()).unref(),
            it.index() == it.seq().len() ==> keys@ == it.seq().unref(),
    {
        keys.push(*k);
        assert(keys@ =~= it.seq().take(it.index() + 1).unref());
        assert(it.seq().take(it.seq().len() as int) =~= it.seq());
    }
    keys
}

} // verus!
