//! Hash sets and hash maps keyed by paths and by path texts.
//!
//! The tables are those of `rustc_hash`: the standard library's, with the Fx hasher, which has no
//! seed. Their contents are stated by value: a key is the characters of a text or the names of a
//! path.

use rustc_hash::{FxBuildHasher, FxHashMap, FxHashSet};
use std::hash::Hash;
use vstd::prelude::*;

verus! {

/// `rustc_hash::FxBuildHasher`, the hasher of `FxHashSet` and `FxHashMap`. Nothing is claimed of
/// it.
#[verifier::external_type_specification]
#[verifier::external_body]
pub struct ExFxBuildHasher(FxBuildHasher);

/// The types of keys: those whose `Eq` and `Hash` go by the value that `deep_view` gives.
pub trait PlainKey: DeepView + Eq + Hash {

}

impl PlainKey for String {

}

impl PlainKey for Vec<Vec<u8>> {

}

/// `FxHashSet::default`: a new set is empty.
#[verifier::external_body]
pub(crate) fn set_new<K: PlainKey>() -> (s: FxHashSet<K>)
    ensures
        s.deep_view() == Set::<<K as DeepView>::V>::empty(),
{
    FxHashSet::default()
}

/// `FxHashSet::insert`: the key is in the set afterwards, everything else is as it was, and the
/// result says whether the key is new.
#[verifier::external_body]
pub(crate) fn set_insert<K: PlainKey>(s: &mut FxHashSet<K>, k: K) -> (fresh: bool)
    ensures
        final(s).deep_view() == old(s).deep_view().insert(k.deep_view()),
        fresh == !old(s).deep_view().contains(k.deep_view()),
{
    s.insert(k)
}

/// `FxHashSet::contains`: whether the set holds the key.
#[verifier::external_body]
pub(crate) fn set_contains<K: PlainKey>(s: &FxHashSet<K>, k: &K) -> (found: bool)
    ensures
        found == s.deep_view().contains(k.deep_view()),
{
    s.contains(k)
}

/// `FxHashSet::into_iter`: every key of the set once. Of the order nothing is claimed.
#[verifier::external_body]
pub(crate) fn set_into_vec<K: PlainKey>(s: FxHashSet<K>) -> (v: Vec<K>)
    ensures
        v.deep_view().no_duplicates(),
        v.deep_view().to_set() == s.deep_view(),
{
    s.into_iter().collect()
}

/// `FxHashSet::len`: the number of keys in the set.
#[verifier::external_body]
pub(crate) fn set_len<K: PlainKey>(s: &FxHashSet<K>) -> (n: usize)
    ensures
        n == s.deep_view().len(),
{
    s.len()
}

/// `FxHashMap::default`: a new map is empty.
#[verifier::external_body]
pub(crate) fn map_new<K: PlainKey, V: DeepView>() -> (m: FxHashMap<K, V>)
    ensures
        m.deep_view().dom() == Set::<<K as DeepView>::V>::empty(),
{
    FxHashMap::default()
}

/// `FxHashMap::insert`: the key has the value afterwards and every other key is as it was.
#[verifier::external_body]
pub(crate) fn map_insert<K: PlainKey, V: DeepView>(m: &mut FxHashMap<K, V>, k: K, v: V)
    ensures
        final(m).deep_view() == old(m).deep_view().insert(k.deep_view(), v.deep_view()),
{
    m.insert(k, v);
}

/// `FxHashMap::get`: the value of the key, if the map holds the key.
#[verifier::external_body]
pub(crate) fn map_get<'a, K: PlainKey, V: DeepView>(m: &'a FxHashMap<K, V>, k: &K) -> (v: Option<
    &'a V,
>)
    ensures
        match v {
            Some(x) => m.deep_view().contains_key(k.deep_view()) && x.deep_view()
                == m.deep_view()[k.deep_view()],
            None => !m.deep_view().contains_key(k.deep_view()),
        },
{
    m.get(k)
}

} // verus!
