//! What a server knows of each peer: maps from the peers' ids.

use crate::protocol::for_all_peers;
use std::collections::BTreeMap;
use vstd::laws_eq::obeys_concrete_eq;
use vstd::prelude::*;
use vstd::std_specs::iter::IteratorSpec;

verus! {

/// `value` for each of `peers`.
pub fn make_map<T: Copy>(peers: &[u32], value: T) -> (map: BTreeMap<u32, T>)
    ensures
        map@ == for_all_peers(peers@, value),
{
    let mut map: BTreeMap<u32, T> = BTreeMap::new();
    let mut i: usize = 0;
    assert(map@ =~= for_all_peers(peers@.take(0), value));
    while i < peers.len()
        invariant
            i <= peers@.len(),
            map@ == for_all_peers(peers@.take(i as int), value),
        decreases peers.len() - i,
    {
        let ghost seen = peers@.take(i as int);
        map.insert(peers[i], value);
        assert(peers@.take(i + 1) =~= seen.push(peers@[i as int]));
        assert(map@ =~= for_all_peers(peers@.take(i + 1), value)) by {
            assert forall|p: u32|
                peers@.take(i + 1).contains(p) == (seen.contains(p) || p == peers@[i as int]) by {
                if seen.contains(p) {
                    let j = choose|j: int| 0 <= j < seen.len() && seen[j] == p;
                    assert(peers@.take(i + 1)[j] == p);
                }
                assert(peers@.take(i + 1)[i as int] == peers@[i as int]);
            }
        }
        i += 1;
    }
    assert(peers@.take(i as int) =~= peers@);
    map
}

/// What `map` holds for `peer`.
pub fn entry_of<T: Copy>(map: &BTreeMap<u32, T>, peer: u32) -> (value: T)
    requires
        map@.contains_key(peer),
    ensures
        value == map@[peer],
{
    *map.get(&peer).unwrap()
}

/// The ids that `map` has entries for, each once.
pub fn keys_of<T>(map: &BTreeMap<u32, T>) -> (keys: Vec<u32>)
    ensures
        keys@.no_duplicates(),
        keys@.to_set() == map@.dom(),
{
    let mut keys: Vec<u32> = Vec::new();
    let ghost all = map.keys().remaining().unref();
    for k in it: map.keys()
        invariant
            it.seq().unref() == all,
            keys@.len() == it.index(),
            forall|i: int| 0 <= i < keys@.len() ==> keys@[i] == *it.seq()[i],
    {
        keys.push(*k);
    }
    assert(keys@ =~= all);
    keys
}

/// Whether two maps hold the same.
pub fn same_map<T: Copy + PartialEq>(a: &BTreeMap<u32, T>, b: &BTreeMap<u32, T>) -> (same: bool)
    requires
        obeys_concrete_eq::<T>(),
    ensures
        same == (a@ == b@),
{
    if a.len() != b.len() {
        return false;
    }
    let keys = keys_of(a);
    let mut i: usize = 0;
    while i < keys.len()
        invariant
            obeys_concrete_eq::<T>(),
            i <= keys@.len(),
            keys@.to_set() == a@.dom(),
            forall|j: int|
                0 <= j < i ==> b@.contains_key(#[trigger] keys@[j]) && a@[keys@[j]] == b@[keys@[j]],
        decreases keys.len() - i,
    {
        reveal(obeys_concrete_eq);
        let k: u32 = keys[i];
        assert(keys@.to_set().contains(k));
        match b.get(&k) {
            Some(value) => {
                if *value != entry_of(a, k) {
                    return false;
                }
            },
            None => {
                return false;
            },
        }
        i += 1;
    }
    proof {
        assert forall|k: u32| #[trigger] a@.dom().contains(k) implies b@.contains_key(k) && a@[k]
            == b@[k] by {
            assert(keys@.to_set().contains(k));
            let j = choose|j: int| 0 <= j < keys@.len() && keys@[j] == k;
            assert(keys@[j] == k);
        }
        vstd::set_lib::lemma_subset_equality(a@.dom(), b@.dom());
        assert(a@ =~= b@);
    }
    true
}

} // verus!
