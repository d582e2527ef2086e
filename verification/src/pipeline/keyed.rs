//! Walking a map that is keyed by reorder-buffer index.

use vstd::prelude::*;
use std::collections::HashMap;
use vstd::std_specs::iter::IteratorSpec;

verus! {

broadcast use vstd::std_specs::hash::group_hash_axioms;

/// The keys of `map`, each once, in the order in which the map hands them
/// out. That order is not specified: callers must not depend on it.
pub fn collect_keys<V>(map: &HashMap<usize, V>) -> (keys: Vec<usize>)
    ensures
        keys@.no_duplicates(),
        keys@.to_set() == map@.dom(),
        keys@.len() == map@.dom().len(),
{
    let mut keys: Vec<usize> = Vec::new();
    for key in it: map.keys()
        invariant
            keys@.len() == it.index(),
            forall|j: int| 0 <= j < keys@.len() ==> keys@[j] == *it.seq()[j],
    {
        keys.push(*key);
    }
    proof {
        let remaining = vstd::std_specs::hash::spec_keys_iter(map).remaining();
        vstd::std_specs::hash::axiom_spec_keys_iter(map);
        assert(keys@ =~= remaining.unref());
    }
    keys
}

} // verus!
