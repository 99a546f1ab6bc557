//! Hash sets and maps keyed by edges and triangles, hashed with foldhash.
//!
//! The collections are `std` hash tables built with `foldhash`'s fast random state.
//! Each operation the library needs goes through one small trusted wrapper whose
//! contract restates what the standard library documents for that operation in terms
//! of the table's mathematical view.

use crate::topology::{Edge, Triangle};
use vstd::prelude::*;

verus! {

/// The hasher builder of foldhash's fast hash tables.
#[verifier::external_type_specification]
#[verifier::external_body]
pub struct ExFoldRandomState(foldhash::fast::RandomState);

/// Keys stored in foldhash tables by this library: plain arrays of integers, whose
/// `==` and `Hash` agree with equality of values.
pub trait PlainKey: Eq + core::hash::Hash + Copy {

}

impl PlainKey for [u32; 2] {

}

impl PlainKey for [u32; 3] {

}

/// A set of edges.
pub type EdgeSet = foldhash::HashSet<Edge>;

/// A set of triangles.
pub type TriSet = foldhash::HashSet<Triangle>;

/// A map from edges to values.
pub type EdgeMap<V> = foldhash::HashMap<Edge, V>;

/// `foldhash::HashSetExt::new`: a new, empty set.
#[verifier::external_body]
pub(crate) fn set_new<K: PlainKey>() -> (s: foldhash::HashSet<K>)
    ensures
        s@ == Set::<K>::empty(),
{
    <foldhash::HashSet<K> as foldhash::HashSetExt>::new()
}

/// `HashSet::contains`: whether the set holds the key.
#[verifier::external_body]
pub(crate) fn set_contains<K: PlainKey>(s: &foldhash::HashSet<K>, k: &K) -> (r: bool)
    ensures
        r == s@.contains(*k),
{
    s.contains(k)
}

/// `HashSet::insert`: adds the key; tells whether it was absent.
#[verifier::external_body]
pub(crate) fn set_insert<K: PlainKey>(s: &mut foldhash::HashSet<K>, k: K) -> (r: bool)
    ensures
        final(s)@ == old(s)@.insert(k),
        r == !old(s)@.contains(k),
{
    s.insert(k)
}

/// `HashSet::remove`: removes the key; tells whether it was present.
#[verifier::external_body]
pub(crate) fn set_remove<K: PlainKey>(s: &mut foldhash::HashSet<K>, k: &K) -> (r: bool)
    ensures
        final(s)@ == old(s)@.remove(*k),
        r == old(s)@.contains(*k),
{
    s.remove(k)
}

/// `HashSet::iter`, collected: each key of the set once, in the table's order.
#[verifier::external_body]
pub(crate) fn set_elements<K: PlainKey>(s: &foldhash::HashSet<K>) -> (r: Vec<K>)
    ensures
        r@.to_set() == s@,
        r@.no_duplicates(),
{
    s.iter().copied().collect()
}

/// `foldhash::HashMapExt::new`: a new, empty map.
#[verifier::external_body]
pub(crate) fn map_new<K: PlainKey, V>() -> (m: foldhash::HashMap<K, V>)
    ensures
        m@.dom() == Set::<K>::empty(),
{
    <foldhash::HashMap<K, V> as foldhash::HashMapExt>::new()
}

/// `HashMap::get`, copied out: the value stored under the key, if any.
#[verifier::external_body]
pub(crate) fn map_get<K: PlainKey, V: Copy>(m: &foldhash::HashMap<K, V>, k: &K) -> (r: Option<V>)
    ensures
        r == (if m@.contains_key(*k) { Some(m@[*k]) } else { None::<V> }),
{
    m.get(k).copied()
}

/// `HashMap::insert`: stores the value under the key; hands back the value it replaced.
#[verifier::external_body]
pub(crate) fn map_insert<K: PlainKey, V>(m: &mut foldhash::HashMap<K, V>, k: K, v: V) -> (r: Option<V>)
    ensures
        final(m)@ == old(m)@.insert(k, v),
        r == (if old(m)@.contains_key(k) { Some(old(m)@[k]) } else { None::<V> }),
{
    m.insert(k, v)
}

/// `HashMap::remove`: removes the key; hands back the value it held.
#[verifier::external_body]
pub(crate) fn map_remove<K: PlainKey, V>(m: &mut foldhash::HashMap<K, V>, k: &K) -> (r: Option<V>)
    ensures
        final(m)@ == old(m)@.remove(*k),
        r == (if old(m)@.contains_key(*k) { Some(old(m)@[*k]) } else { None::<V> }),
{
    m.remove(k)
}

/// `HashMap::keys`, collected: each key of the map once, in the table's order.
#[verifier::external_body]
pub(crate) fn map_keys<K: PlainKey, V>(m: &foldhash::HashMap<K, V>) -> (r: Vec<K>)
    ensures
        r@.to_set() == m@.dom(),
        r@.no_duplicates(),
{
    m.keys().copied().collect()
}

} // verus!
