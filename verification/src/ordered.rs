//! The ordered index of the append-log engine: a skip list that maps each key to the
//! location of its value and hands the keys out in byte-wise lexicographic order.
//!
//! The skip list is `skiplist::SkipMap`. Nothing in this file is proved: each function
//! states what the skip list does, as its source shows it.

use std::ops::Bound;
use skiplist::SkipMap;
use vstd::prelude::*;
use crate::bytes::lex_lt;
use crate::record::{KeyIndex, Record};

verus! {

/// `skiplist::SkipMap`, of which nothing but the functions below is known.
#[verifier::external_type_specification]
#[verifier::external_body]
#[verifier::reject_recursive_types(K)]
#[verifier::reject_recursive_types(V)]
pub struct ExSkipMap<K, V>(SkipMap<K, V>);

/// One end of a range of keys.
#[derive(Debug)]
pub enum KeyBound {
    Included(Vec<u8>),
    Excluded(Vec<u8>),
    Unbounded,
}

impl KeyBound {
    /// Whether `k` lies at or above this bound, taken as the lower end of a range.
    pub open spec fn admits_above(self, k: Seq<u8>) -> bool {
        match self {
            KeyBound::Included(m) => m@ == k || lex_lt(m@, k),
            KeyBound::Excluded(m) => lex_lt(m@, k),
            KeyBound::Unbounded => true,
        }
    }

    /// Whether `k` lies at or below this bound, taken as the upper end of a range.
    pub open spec fn admits_below(self, k: Seq<u8>) -> bool {
        match self {
            KeyBound::Included(m) => m@ == k || lex_lt(k, m@),
            KeyBound::Excluded(m) => lex_lt(k, m@),
            KeyBound::Unbounded => true,
        }
    }
}

/// What the skip list holds: the location stored under each key.
pub uninterp spec fn index_entries(m: SkipMap<Vec<u8>, KeyIndex>) -> Map<Seq<u8>, KeyIndex>;

/// The index that holds no key.
pub open spec fn empty_index() -> Map<Seq<u8>, KeyIndex> {
    Map::empty()
}

/// `SkipMap::new`: a skip list that holds nothing.
#[verifier::external_body]
pub(crate) fn index_new() -> (m: SkipMap<Vec<u8>, KeyIndex>)
    ensures
        index_entries(m) == empty_index(),
{
    SkipMap::new()
}

/// `SkipMap::insert`: stores `value` under `key`, in place of what was stored under an
/// equal key, and returns what it replaced.
#[verifier::external_body]
pub(crate) fn index_insert(m: &mut SkipMap<Vec<u8>, KeyIndex>, key: Vec<u8>, value: KeyIndex) -> (r:
    Option<KeyIndex>)
    ensures
        index_entries(*final(m)) == index_entries(*old(m)).insert(key@, value),
        r == if index_entries(*old(m)).contains_key(key@) {
            Some(index_entries(*old(m))[key@])
        } else {
            None
        },
{
    m.insert(key, value)
}

/// `SkipMap::get`: what is stored under `key`, if anything.
#[verifier::external_body]
pub(crate) fn index_get(m: &SkipMap<Vec<u8>, KeyIndex>, key: &Vec<u8>) -> (r: Option<KeyIndex>)
    ensures
        r == if index_entries(*m).contains_key(key@) {
            Some(index_entries(*m)[key@])
        } else {
            None
        },
{
    m.get(key).copied()
}

/// `SkipMap::range`: the entries whose keys lie between the two bounds, each once, in
/// strictly ascending byte-wise lexicographic order of their keys (the order of `Vec<u8>`).
/// Bounds that admit no key give no entry.
#[verifier::external_body]
pub(crate) fn index_range(m: &SkipMap<Vec<u8>, KeyIndex>, min: &KeyBound, max: &KeyBound) -> (r: Vec<
    Record,
>)
    ensures
        forall|i: int|
            0 <= i < r.len() ==> {
                &&& min.admits_above(#[trigger] r[i]@.key)
                &&& max.admits_below(r[i]@.key)
                &&& index_entries(*m).contains_key(r[i]@.key)
                &&& index_entries(*m)[r[i]@.key] == r[i]@.index
            },
        forall|k: Seq<u8>|
            #[trigger] index_entries(*m).contains_key(k) && min.admits_above(k) && max.admits_below(k)
                ==> exists|i: int| 0 <= i < r.len() && r[i]@.key == k,
        forall|i: int, j: int| 0 <= i < j < r.len() ==> lex_lt(#[trigger] r[i]@.key, #[trigger] r[j]@.key),
{
    let lo = match min {
        KeyBound::Included(k) => Bound::Included(k),
        KeyBound::Excluded(k) => Bound::Excluded(k),
        KeyBound::Unbounded => Bound::Unbounded,
    };
    let hi = match max {
        KeyBound::Included(k) => Bound::Included(k),
        KeyBound::Excluded(k) => Bound::Excluded(k),
        KeyBound::Unbounded => Bound::Unbounded,
    };
    m.range(lo, hi).map(|(k, v)| Record { key: k.clone(), index: *v }).collect()
}

} // verus!
