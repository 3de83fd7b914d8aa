//! The lock-free skip list of `crossbeam_skiplist` as the table's ordered
//! map. What is stated here of the skip list is taken from its documentation
//! and source, and is not proved; it holds where one owner calls at a time.

use crate::byte::{bytes_lt, Bytes};
use crossbeam_skiplist::SkipMap;
use vstd::prelude::*;

verus! {

/// `crossbeam_skiplist::SkipMap`, the lock-free ordered map that holds the
/// table's entries. Nothing of its inside is known here.
#[verifier::external_type_specification]
#[verifier::external_body]
#[verifier::reject_recursive_types(K)]
#[verifier::reject_recursive_types(V)]
pub struct ExSkipMap<K, V>(SkipMap<K, V>);

/// Bindings from a key, as payload bytes and a number, to a value's bytes.
pub type Contents = Map<(Seq<u8>, u64), Seq<u8>>;

/// What a `SkipMap` holds: for each stored key, as payload bytes and sort
/// number, the bytes of the value bound to it.
pub uninterp spec fn skip_map_entries(map: SkipMap<(Vec<u8>, u64), Bytes>) -> Contents;

/// A stored key as plain values.
pub open spec fn stored_view(key: (Vec<u8>, u64)) -> (Seq<u8>, u64) {
    (key.0@, key.1)
}

/// The order in which the skip list keeps its keys: the standard order of a
/// pair of a byte string and an integer.
pub open spec fn stored_lt(a: (Seq<u8>, u64), b: (Seq<u8>, u64)) -> bool {
    bytes_lt(a.0, b.0) || (a.0 == b.0 && a.1 < b.1)
}

/// `SkipMap::new` of `crossbeam_skiplist`: the new map holds nothing.
#[verifier::external_body]
pub(crate) fn skip_map_new() -> (list: SkipMap<(Vec<u8>, u64), Bytes>)
    ensures
        skip_map_entries(list) == Contents::empty(),
{
    SkipMap::new()
}

/// `SkipMap::insert` of `crossbeam_skiplist`, called with no other user of the
/// map: afterwards the key is bound to the new value, whether or not it was
/// bound before, and every other key is bound as before.
#[verifier::external_body]
pub(crate) fn skip_map_insert(map: &mut SkipMap<(Vec<u8>, u64), Bytes>, key: (Vec<u8>, u64), value: Bytes)
    ensures
        skip_map_entries(*final(map)) == skip_map_entries(*old(map)).insert(
            stored_view(key),
            value@,
        ),
{
    map.insert(key, value);
}

/// `SkipMap::get` of `crossbeam_skiplist`: a clone of the value bound to a key
/// equal to this one, or `None` where no such key is bound.
#[verifier::external_body]
pub(crate) fn skip_map_get(map: &SkipMap<(Vec<u8>, u64), Bytes>, key: &(Vec<u8>, u64)) -> (value: Option<
    Bytes,
>)
    ensures
        match value {
            Some(v) => skip_map_entries(*map).contains_key(stored_view(*key)) && v@
                == skip_map_entries(*map)[stored_view(*key)],
            None => !skip_map_entries(*map).contains_key(stored_view(*key)),
        },
{
    match map.get(key) {
        Some(entry) => Some(entry.value().clone()),
        None => None,
    }
}

/// `SkipMap::is_empty` of `crossbeam_skiplist`: whether no key is bound.
#[verifier::external_body]
pub(crate) fn skip_map_is_empty(map: &SkipMap<(Vec<u8>, u64), Bytes>) -> (empty: bool)
    ensures
        empty <==> forall|k: (Seq<u8>, u64)| !skip_map_entries(*map).contains_key(k),
{
    map.is_empty()
}

/// `SkipMap::iter` of `crossbeam_skiplist`, run to its end: clones of every
/// binding, each once, in strictly ascending order of the keys.
#[verifier::external_body]
pub(crate) fn skip_map_items(map: &SkipMap<(Vec<u8>, u64), Bytes>) -> (items: Vec<((Vec<u8>, u64), Bytes)>)
    ensures
        forall|i: int|
            0 <= i < items.len() ==> skip_map_entries(*map).contains_key(
                #[trigger] stored_view(items[i].0),
            ) && skip_map_entries(*map)[stored_view(items[i].0)] == items[i].1@,
        forall|k: (Seq<u8>, u64)| #[trigger]
            skip_map_entries(*map).contains_key(k) ==> exists|i: int|
                0 <= i < items.len() && stored_view(#[trigger] items[i].0) == k,
        forall|i: int, j: int|
            0 <= i < j < items.len() ==> stored_lt(
                #[trigger] stored_view(items[i].0),
                #[trigger] stored_view(items[j].0),
            ),
{
    map.iter().map(|entry| (entry.key().clone(), entry.value().clone())).collect()
}

} // verus!
