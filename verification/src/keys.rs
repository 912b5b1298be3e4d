//! Walking ordered maps in key order.

use std::collections::BTreeMap;
use vstd::prelude::*;
use vstd::std_specs::cmp::OrdSpec;
use vstd::std_specs::iter::IteratorSpec;

verus! {

broadcast use {vstd::std_specs::btree::group_btree_axioms, vstd::laws_cmp::group_laws_cmp};

/// The elements stand in strictly rising order.
pub open spec fn strictly_rising(keys: Seq<u128>) -> bool {
    forall|i: int, j: int| 0 <= i < j < keys.len() ==> #[trigger] keys[i] < #[trigger] keys[j]
}

/// `keys` lists the keys of `map` in rising order.
pub open spec fn lists_keys<V>(keys: Seq<u128>, map: Map<u128, V>) -> bool {
    &&& strictly_rising(keys)
    &&& forall|k: u128| #[trigger] map.contains_key(k) <==> keys.contains(k)
}

/// The keys of a map, in rising order.
pub(crate) fn sorted_keys<V>(map: &BTreeMap<u128, V>) -> (keys: Vec<u128>)
    ensures
        lists_keys(keys@, map@),
{
    let mut keys: Vec<u128> = Vec::new();
    let entries = map.iter();
    let ghost listed = entries.remaining();
    let ghost rising = listed.map_values(|kv: (&u128, &V)| *kv.0);
    for entry in it: entries
        invariant
            it.seq() == listed,
            keys@.len() == it.index(),
            forall|i: int| 0 <= i < keys@.len() ==> keys@[i] == *listed[i].0,
    {
        keys.push(*entry.0);
    }
    proof {
        assert(keys@ =~= rising);
        assert forall|i: int, j: int| 0 <= i < j < keys@.len() implies #[trigger] keys@[i]
            < #[trigger] keys@[j] by {
            assert(rising[i].cmp_spec(&rising[j]) is Less);
        }
        assert forall|k: u128| #[trigger] map@.contains_key(k) implies keys@.contains(k) by {
            let i = listed.index_of((&k, &map@[k]));
            assert(keys@[i] == k);
        }
        assert forall|k: u128| keys@.contains(k) implies #[trigger] map@.contains_key(k) by {
            let i = keys@.index_of(k);
            assert(map@.contains_key(*listed[i].0));
        }
    }
    keys
}

} // verus!
