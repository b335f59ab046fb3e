//! The trusted boundary of the library: declarations and thin wrappers for
//! the outside crates it lives with.  The ordered entry map is indexmap's
//! `IndexMap`, whose contents are named by the uninterpreted sequence
//! `map_entries`; every wrapper states over that name what the crate's
//! source shows of the method it calls.  Entry identifiers come from uuid.

use vstd::prelude::*;

use crate::entry::Model;

verus! {

#[verifier::external_type_specification]
#[verifier::external_body]
#[verifier::reject_recursive_types(K)]
#[verifier::reject_recursive_types(V)]
#[verifier::reject_recursive_types(S)]
pub struct ExIndexMap<K, V, S>(indexmap::IndexMap<K, V, S>);

/// The key-value pairs an `IndexMap` holds, in their insertion order.
pub uninterp spec fn map_entries(m: indexmap::IndexMap<u128, Model>) -> Seq<(u128, Model)>;

/// Whether some pair of the sequence carries the key.
pub open spec fn seq_has_key(s: Seq<(u128, Model)>, k: u128) -> bool {
    exists|i: int| 0 <= i < s.len() && s[i].0 == k
}

/// Relies on indexmap's `IndexMap::new`: a map with no pairs.
#[verifier::external_body]
pub(crate) fn im_new() -> (r: indexmap::IndexMap<u128, Model>)
    ensures
        map_entries(r) == Seq::<(u128, Model)>::empty(),
{
    indexmap::IndexMap::new()
}

/// Relies on indexmap's `IndexMap::len`: the number of pairs.
#[verifier::external_body]
pub(crate) fn im_len(m: &indexmap::IndexMap<u128, Model>) -> (r: usize)
    ensures
        r == map_entries(*m).len(),
{
    m.len()
}

/// Relies on indexmap's `IndexMap::get`, cloning the found value: `Some`
/// exactly when a pair carries the key.
#[verifier::external_body]
pub(crate) fn im_get(m: &indexmap::IndexMap<u128, Model>, k: u128) -> (r: Option<Model>)
    ensures
        r is None <==> !seq_has_key(map_entries(*m), k),
        r matches Some(v) ==> exists|i: int|
            0 <= i < map_entries(*m).len() && (#[trigger] map_entries(*m)[i]).0 == k && v
                == map_entries(*m)[i].1,
{
    m.get(&k).cloned()
}

/// Relies on indexmap's `IndexMap::insert`: a new key is appended last; an
/// existing key keeps its place in the order, only its value changes, and
/// the older value comes back.
#[verifier::external_body]
pub(crate) fn im_insert(
    m: &mut indexmap::IndexMap<u128, Model>,
    k: u128,
    v: Model,
) -> (r: Option<Model>)
    ensures
        !seq_has_key(map_entries(*old(m)), k) ==> map_entries(*final(m)) == map_entries(
            *old(m),
        ).push((k, v)) && r is None,
        seq_has_key(map_entries(*old(m)), k) ==> exists|i: int|
            0 <= i < map_entries(*old(m)).len() && (#[trigger] map_entries(*old(m))[i]).0 == k
                && map_entries(*final(m)) == map_entries(*old(m)).update(i, (k, v)) && r == Some(
                map_entries(*old(m))[i].1,
            ),
{
    m.insert(k, v)
}

/// Relies on indexmap's `IndexMap::shift_remove`: the pair carrying the key
/// leaves, the pairs after it shift down, their relative order kept; without
/// the key nothing changes.
#[verifier::external_body]
pub(crate) fn im_shift_remove(
    m: &mut indexmap::IndexMap<u128, Model>,
    k: u128,
) -> (r: Option<Model>)
    ensures
        !seq_has_key(map_entries(*old(m)), k) ==> map_entries(*final(m)) == map_entries(*old(m))
            && r is None,
        seq_has_key(map_entries(*old(m)), k) ==> exists|i: int|
            0 <= i < map_entries(*old(m)).len() && (#[trigger] map_entries(*old(m))[i]).0 == k
                && map_entries(*final(m)) == map_entries(*old(m)).remove(i) && r == Some(
                map_entries(*old(m))[i].1,
            ),
{
    m.shift_remove(&k)
}

/// Relies on indexmap's `IndexMap::iter`, in insertion order, cloning each
/// pair out.
#[verifier::external_body]
pub(crate) fn im_pairs(m: &indexmap::IndexMap<u128, Model>) -> (r: Vec<(u128, Model)>)
    ensures
        r@ == map_entries(*m),
{
    m.iter().map(|(k, v)| (*k, v.clone())).collect()
}

/// Relies on uuid's `Uuid::new_v4`, taken as its 128-bit value.  The draw is
/// random; nothing is promised of it.
#[verifier::external_body]
pub(crate) fn random_id() -> u128 {
    uuid::Uuid::new_v4().as_u128()
}

/// Relies on std's `String::push`: appends the one character.
#[verifier::external_body]
pub(crate) fn push_char(s: &mut String, c: char)
    ensures
        final(s)@ == old(s)@.push(c),
{
    s.push(c);
}

} // verus!
