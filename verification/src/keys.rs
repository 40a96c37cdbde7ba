//! The keys of a map, as a list.

use std::collections::{BTreeMap, HashMap};

use vstd::prelude::*;

verus! {

/// Whether `keys` lists every key of a map with the domain `dom`, each once.
pub open spec fn lists(keys: Seq<u64>, dom: Set<u64>) -> bool {
    &&& keys.no_duplicates()
    &&& keys.to_set() == dom
}

/// Lists the keys of a hash map, in no particular order.
pub fn hash_keys<V>(m: &HashMap<u64, V>) -> (keys: Vec<u64>)
    ensures
        lists(keys@, m@.dom()),
{
    broadcast use vstd::std_specs::hash::group_hash_axioms;

    let mut keys: Vec<u64> = Vec::new();
    for k in it: m.keys()
        invariant
            lists(it.seq().unref(), m@.dom()),
            keys@ == it.seq().unref().take(it.index()),
            it.index() == it.seq().len() ==> keys@ == it.seq().unref(),
    {
        keys.push(*k);
        assert(keys@ =~= it.seq().unref().take(it.index() + 1));
    }
    keys
}

/// Lists the keys of an ordered map.
pub fn tree_keys<V>(m: &BTreeMap<u64, V>) -> (keys: Vec<u64>)
    ensures
        lists(keys@, m@.dom()),
{
    broadcast use vstd::std_specs::btree::group_btree_axioms;

    let mut keys: Vec<u64> = Vec::new();
    for k in it: m.keys()
        invariant
            lists(it.seq().unref(), m@.dom()),
            keys@ == it.seq().unref().take(it.index()),
            it.index() == it.seq().len() ==> keys@ == it.seq().unref(),
    {
        keys.push(*k);
        assert(keys@ =~= it.seq().unref().take(it.index() + 1));
    }
    keys
}

} // verus!
