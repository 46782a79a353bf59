//! Hash maps and sets keyed by byte arrays.
//!
//! The collections are those of `alloy_primitives::map`, with the hasher for fixed-size byte
//! arrays. Verus does not know how that hasher behaves, so each method that the library needs is
//! wrapped once here, with its effect stated over the view of the collection.

use vstd::prelude::*;

use alloy_primitives::map::{FbBuildHasher, HashMap, HashSet};

verus! {

/// `alloy_primitives::map::FbBuildHasher`, the hasher builder for `N`-byte keys.
#[verifier::external_type_specification]
#[verifier::external_body]
pub struct ExFbBuildHasher<const N: usize>(FbBuildHasher<N>);

/// A hash map keyed by `N`-byte arrays.
pub type BytesMap<const N: usize, V> = HashMap<[u8; N], V, FbBuildHasher<N>>;

/// A hash set of `N`-byte arrays.
pub type BytesSet<const N: usize> = HashSet<[u8; N], FbBuildHasher<N>>;

/// `entries` lists every entry of `map` exactly once, in some order.
pub open spec fn enumerates<K, V>(entries: Seq<(K, V)>, map: Map<K, V>) -> bool {
    &&& forall|i: int, j: int|
        0 <= i < j < entries.len() ==> (#[trigger] entries[i]).0 != (#[trigger] entries[j]).0
    &&& forall|i: int|
        0 <= i < entries.len() ==> map.contains_key((#[trigger] entries[i]).0)
            && map[entries[i].0] == entries[i].1
    &&& forall|k: K| #[trigger]
        map.contains_key(k) ==> exists|i: int|
            0 <= i < entries.len() && (#[trigger] entries[i]).0 == k
}

/// `keys` lists every element of `set` exactly once, in some order.
pub open spec fn enumerates_set<K>(keys: Seq<K>, set: Set<K>) -> bool {
    &&& keys.no_duplicates()
    &&& forall|k: K| #[trigger] keys.contains(k) <==> set.contains(k)
}

/// Calls `HashMap::insert`: afterwards the key maps to the value and every other key is as it
/// was; what the key mapped to before is returned.
#[verifier::external_body]
pub(crate) fn map_insert<const N: usize, V>(
    map: &mut BytesMap<N, V>,
    key: [u8; N],
    value: V,
) -> (previous: Option<V>)
    ensures
        final(map)@ == old(map)@.insert(key, value),
        previous == (if old(map)@.contains_key(key) {
            Some(old(map)@[key])
        } else {
            None
        }),
{
    map.insert(key, value)
}

/// Calls `HashMap::get`: a reference to the value of the key, or `None` where the map does not
/// hold the key.
#[verifier::external_body]
pub(crate) fn map_get<'a, const N: usize, V>(map: &'a BytesMap<N, V>, key: &[u8; N]) -> (value:
    Option<&'a V>)
    ensures
        match value {
            Some(v) => map@.contains_key(*key) && map@[*key] == *v,
            None => !map@.contains_key(*key),
        },
{
    map.get(key)
}

/// Calls `HashMap::remove`: the key is gone afterwards, every other key is as it was, and what
/// the key mapped to is returned.
#[verifier::external_body]
pub(crate) fn map_remove<const N: usize, V>(map: &mut BytesMap<N, V>, key: &[u8; N]) -> (removed:
    Option<V>)
    ensures
        final(map)@ == old(map)@.remove(*key),
        removed == (if old(map)@.contains_key(*key) {
            Some(old(map)@[*key])
        } else {
            None
        }),
{
    map.remove(key)
}

/// Calls `HashMap::len`: the number of keys in the map.
#[verifier::external_body]
pub(crate) fn map_len<const N: usize, V>(map: &BytesMap<N, V>) -> (len: usize)
    ensures
        len == map@.dom().len(),
{
    map.len()
}

/// Calls `HashMap::keys` and collects the keys: each key of the map once. The order is that of
/// the hash table and nothing is said of it.
#[verifier::external_body]
pub(crate) fn map_keys<const N: usize, V>(map: &BytesMap<N, V>) -> (keys: Vec<[u8; N]>)
    ensures
        enumerates_set(keys@, map@.dom()),
{
    map.keys().copied().collect()
}

/// Calls `HashMap::into_iter` and collects the entries: each entry of the map once. The order is
/// that of the hash table and nothing is said of it.
#[verifier::external_body]
pub(crate) fn map_into_entries<const N: usize, V>(map: BytesMap<N, V>) -> (entries: Vec<
    ([u8; N], V),
>)
    ensures
        enumerates(entries@, map@),
{
    map.into_iter().collect()
}

/// Calls `HashSet::insert`: the key is in the set afterwards; returns whether it was not before.
#[verifier::external_body]
pub(crate) fn set_insert<const N: usize>(set: &mut BytesSet<N>, key: [u8; N]) -> (added: bool)
    ensures
        final(set)@ == old(set)@.insert(key),
        added == !old(set)@.contains(key),
{
    set.insert(key)
}

/// Calls `HashSet::contains`: whether the key is in the set.
#[verifier::external_body]
pub(crate) fn set_contains<const N: usize>(set: &BytesSet<N>, key: &[u8; N]) -> (found: bool)
    ensures
        found == set@.contains(*key),
{
    set.contains(key)
}

/// Calls `HashSet::len`: the number of elements of the set.
#[verifier::external_body]
pub(crate) fn set_len<const N: usize>(set: &BytesSet<N>) -> (len: usize)
    ensures
        len == set@.len(),
{
    set.len()
}

/// Calls `HashSet::iter` and collects the elements: each element of the set once. The order is
/// that of the hash table and nothing is said of it.
#[verifier::external_body]
pub(crate) fn set_to_vec<const N: usize>(set: &BytesSet<N>) -> (keys: Vec<[u8; N]>)
    ensures
        enumerates_set(keys@, set@),
{
    set.iter().copied().collect()
}

/// Adds every entry of `other` to `map`; where both hold a key, the value of `other` stays.
pub fn map_extend<const N: usize, V>(map: &mut BytesMap<N, V>, other: BytesMap<N, V>)
    ensures
        final(map)@ == old(map)@.union_prefer_right(other@),
{
    let ghost before = map@;
    let mut entries = map_into_entries(other);
    let ghost all = entries@;
    let ghost mut done: Set<[u8; N]> = Set::empty();
    while entries.len() > 0
        invariant
            enumerates(all, other@),
            entries@.len() <= all.len(),
            entries@ == all.take(entries@.len() as int),
            forall|k: [u8; N]| #[trigger]
                done.contains(k) <==> exists|i: int|
                    entries@.len() <= i < all.len() && (#[trigger] all[i]).0 == k,
            map@.dom() == before.dom().union(done),
            forall|k: [u8; N]| #[trigger]
                map@.contains_key(k) ==> map@[k] == (if done.contains(k) {
                    other@[k]
                } else {
                    before[k]
                }),
        decreases entries.len(),
    {
        let ghost n = entries@.len() - 1;
        match entries.pop() {
            Some(entry) => {
                proof {
                    assert(entry == all[n]);
                    assert(other@.contains_key(all[n].0));
                    done = done.insert(entry.0);
                }
                map_insert(map, entry.0, entry.1);
                assert(map@.dom() =~= before.dom().union(done));
                assert(entries@ =~= all.take(n));
                assert forall|k: [u8; N]| #[trigger] done.contains(k) implies exists|i: int|
                    entries@.len() <= i < all.len() && (#[trigger] all[i]).0 == k by {
                    if k == entry.0 {
                        assert(all[n].0 == k);
                    }
                }
            },
            None => {},
        }
    }
    proof {
        assert forall|k: [u8; N]| other@.contains_key(k) implies done.contains(k) by {
            let i = choose|i: int| 0 <= i < all.len() && (#[trigger] all[i]).0 == k;
            assert(all[i].0 == k);
        }
        assert forall|k: [u8; N]| done.contains(k) implies other@.contains_key(k) by {
            let i = choose|i: int| 0 <= i < all.len() && (#[trigger] all[i]).0 == k;
            assert(all[i].0 == k);
        }
        assert(map@ =~= before.union_prefer_right(other@));
    }
}

} // verus!
