//! The store that an engine stands for: the value of each key.

use vstd::prelude::*;
use crate::bytes::zeros;
use crate::file::value_at;
use crate::record::KeyIndex;

verus! {

pub type Store = Map<Seq<u8>, Seq<u8>>;

/// The store that a data file holds under an index: each key of the index has the bytes at
/// its location.
pub open spec fn store_of(data: Seq<u8>, index: Map<Seq<u8>, KeyIndex>) -> Store {
    Map::new(|k: Seq<u8>| index.contains_key(k), |k: Seq<u8>| value_at(data, index[k]))
}

/// What a lookup gives: the value of the key, and no bytes for a key without a value.
pub open spec fn lookup(store: Store, k: Seq<u8>) -> Seq<u8> {
    if store.contains_key(k) {
        store[k]
    } else {
        Seq::empty()
    }
}

/// Whether `v` can be stored under `k` where every key owns a slot as long as its first
/// value: a key that has a value takes no longer one.
pub open spec fn slot_fits(store: Store, k: Seq<u8>, v: Seq<u8>) -> bool {
    store.contains_key(k) ==> v.len() <= store[k].len()
}

/// What `k` holds after `v` was stored in its slot: `v`, followed by zeros up to the length
/// of the slot where the key had a longer value.
pub open spec fn slot_value(store: Store, k: Seq<u8>, v: Seq<u8>) -> Seq<u8> {
    if store.contains_key(k) {
        v + zeros((store[k].len() - v.len()) as nat)
    } else {
        v
    }
}

/// A key holds what was last stored under it.
pub proof fn law_round_trip(store: Store, k: Seq<u8>, v: Seq<u8>)
    ensures
        lookup(store.insert(k, v), k) == v,
{
}

/// Storing under one key leaves what every other key holds.
pub proof fn law_set_keeps_others(store: Store, k: Seq<u8>, v: Seq<u8>, other: Seq<u8>)
    requires
        other != k,
    ensures
        lookup(store.insert(k, v), other) == lookup(store, other),
{
}

/// In a slot, a key holds what was last stored under it if that is as long as the slot:
/// a new key, or a value of the length of the first one.
pub proof fn law_slot_round_trip(store: Store, k: Seq<u8>, v: Seq<u8>)
    requires
        store.contains_key(k) ==> v.len() == store[k].len(),
    ensures
        slot_fits(store, k, v),
        lookup(store.insert(k, slot_value(store, k, v)), k) == v,
{
}

/// In a slot, a shorter value reads back with zeros after it, as long as the slot.
pub proof fn law_slot_padding(store: Store, k: Seq<u8>, v: Seq<u8>)
    requires
        store.contains_key(k),
        v.len() <= store[k].len(),
    ensures
        lookup(store.insert(k, slot_value(store, k, v)), k).len() == store[k].len(),
        lookup(store.insert(k, slot_value(store, k, v)), k).take(v.len() as int) == v,
        forall|i: int|
            v.len() <= i < store[k].len() ==> lookup(store.insert(k, slot_value(store, k, v)), k)[i] == 0,
{
}

/// A deleted key holds nothing, and every other key what it held.
pub proof fn law_delete(store: Store, k: Seq<u8>, other: Seq<u8>)
    requires
        other != k,
    ensures
        lookup(store.remove(k), k) == Seq::<u8>::empty(),
        lookup(store.remove(k), other) == lookup(store, other),
{
}

} // verus!
