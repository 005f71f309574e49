//! The ordered map that holds the retained size groups.
//!
//! The groups live in a `litemap::LiteMap`, a map kept as a flat vector of
//! key-value pairs in ascending key order. Verus does not look inside it:
//! the items in this file state what each method used here does to the
//! sequence of stored pairs, and those statements are taken on trust.
//! Everything built on them is proved.

use litemap::LiteMap;
use vstd::prelude::*;

verus! {

/// `litemap::LiteMap`, carried as a value that Verus cannot look into.
#[verifier::external_type_specification]
#[verifier::external_body]
#[verifier::reject_recursive_types(K)]
#[verifier::reject_recursive_types(V)]
#[verifier::reject_recursive_types(S)]
pub struct ExLiteMap<K: ?Sized, V: ?Sized, S>(LiteMap<K, V, S>);

/// The key-value pairs that a map holds, in the order in which it stores
/// them, each value taken by its view.
pub uninterp spec fn entries(map: LiteMap<usize, Vec<String>>) -> Seq<(usize, Seq<String>)>;

/// Whether the keys of `e` strictly ascend from front to back.
pub open spec fn ascending(e: Seq<(usize, Seq<String>)>) -> bool {
    forall|i: int, j: int| 0 <= i < j < e.len() ==> (#[trigger] e[i]).0 < (#[trigger] e[j]).0
}

/// Whether some pair of `e` has the key `key`.
pub open spec fn has_key(e: Seq<(usize, Seq<String>)>, key: usize) -> bool {
    exists|i: int| 0 <= i < e.len() && (#[trigger] e[i]).0 == key
}

/// Whether a pair with the key `key` belongs at index `at` of `e`: every key
/// before it is smaller and every key from it on is larger.
pub open spec fn slot_for(e: Seq<(usize, Seq<String>)>, key: usize, at: int) -> bool {
    &&& 0 <= at <= e.len()
    &&& forall|j: int| 0 <= j < at ==> (#[trigger] e[j]).0 < key
    &&& forall|j: int| at <= j < e.len() ==> (#[trigger] e[j]).0 > key
}

/// `LiteMap::new`: the new map holds no pair.
#[verifier::external_body]
pub(crate) fn empty_map() -> (map: LiteMap<usize, Vec<String>>)
    ensures
        entries(map) == Seq::<(usize, Seq<String>)>::empty(),
{
    LiteMap::new()
}

/// `LiteMap::get_mut`: a binary search for `key` over the stored pairs. On
/// ascending keys it finds the pair with that key exactly when there is one,
/// and hands out its value for writing. Whatever the caller then writes
/// stands in that pair; no other pair changes.
#[verifier::external_body]
pub(crate) fn group_mut<'a>(map: &'a mut LiteMap<usize, Vec<String>>, key: usize) -> (found: Option<
    &'a mut Vec<String>,
>)
    requires
        ascending(entries(*old(map))),
    ensures
        match found {
            Some(paths) => exists|i: int|
                0 <= i < entries(*old(map)).len() && (#[trigger] entries(*old(map))[i]) == (
                    key,
                    paths@,
                ) && entries(*final(map)) == entries(*old(map)).update(i, (key, final(paths)@)),
            None => !has_key(entries(*old(map)), key) && entries(*final(map)) == entries(
                *old(map),
            ),
        },
{
    map.get_mut(&key)
}

/// `LiteMap::insert`: a binary search for `key` over the stored pairs. On
/// ascending keys, a pair with that key has its value replaced and the old
/// value is returned; without one, the new pair goes in at the index that
/// keeps the keys ascending, and `None` is returned.
#[verifier::external_body]
pub(crate) fn put_group(map: &mut LiteMap<usize, Vec<String>>, key: usize, paths: Vec<String>) -> (previous:
    Option<Vec<String>>)
    requires
        ascending(entries(*old(map))),
    ensures
        match previous {
            Some(prior) => exists|i: int|
                0 <= i < entries(*old(map)).len() && (#[trigger] entries(*old(map))[i]) == (
                    key,
                    prior@,
                ) && entries(*final(map)) == entries(*old(map)).update(i, (key, paths@)),
            None => exists|at: int| #[trigger]
                slot_for(entries(*old(map)), key, at) && entries(*final(map)) == entries(
                    *old(map),
                ).insert(at, (key, paths@)),
        },
{
    map.insert(key, paths)
}

/// `LiteMap::remove`: a binary search for `key` over the stored pairs. On
/// ascending keys, the pair with that key is taken out and its value
/// returned, the others keeping their order; without one, nothing changes.
#[verifier::external_body]
pub(crate) fn take_group(map: &mut LiteMap<usize, Vec<String>>, key: usize) -> (taken: Option<
    Vec<String>,
>)
    requires
        ascending(entries(*old(map))),
    ensures
        match taken {
            Some(paths) => exists|i: int|
                0 <= i < entries(*old(map)).len() && (#[trigger] entries(*old(map))[i]) == (
                    key,
                    paths@,
                ) && entries(*final(map)) == entries(*old(map)).remove(i),
            None => !has_key(entries(*old(map)), key) && entries(*final(map)) == entries(
                *old(map),
            ),
        },
{
    map.remove(&key)
}

/// `LiteMap::first`: the key of the pair stored first, if the map holds any.
#[verifier::external_body]
pub(crate) fn first_key(map: &LiteMap<usize, Vec<String>>) -> (key: Option<usize>)
    ensures
        match key {
            Some(k) => entries(*map).len() > 0 && k == entries(*map)[0].0,
            None => entries(*map).len() == 0,
        },
{
    map.first().map(|pair| *pair.0)
}

/// `LiteMap::iter`: every stored pair, in stored order.
#[verifier::external_body]
pub(crate) fn stored_groups<'a>(map: &'a LiteMap<usize, Vec<String>>) -> (pairs: Vec<
    (&'a usize, &'a Vec<String>),
>)
    ensures
        pairs@.len() == entries(*map).len(),
        forall|i: int|
            0 <= i < pairs@.len() ==> (*(#[trigger] pairs@[i]).0, pairs@[i].1@) == entries(*map)[i],
{
    map.iter().collect()
}

} // verus!
