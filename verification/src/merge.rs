//! Merging maps of mergeable values, key by key.

use vstd::prelude::*;

use crate::maps::{enumerates, map_insert, map_into_entries, map_remove, BytesMap};

verus! {

/// A value that can take in a later value of the same kind.
pub trait Mergeable: View + Sized {
    /// What `first` is after it has taken in `second`.
    spec fn merged(first: Self::V, second: Self::V) -> Self::V;

    /// Takes in `other`.
    fn merge(&mut self, other: Self)
        ensures
            final(self)@ == Self::merged(old(self)@, other@),
    ;
}

/// The map with each value replaced by its view.
pub open spec fn views<K, V: View>(map: Map<K, V>) -> Map<K, V::V> {
    Map::new(|k: K| map.contains_key(k), |k: K| map[k]@)
}

/// The union of two maps, in which a key of both maps to its two values merged.
pub open spec fn merged_maps<K, V: Mergeable>(
    first: Map<K, V::V>,
    second: Map<K, V::V>,
) -> Map<K, V::V> {
    Map::new(
        |k: K| first.contains_key(k) || second.contains_key(k),
        |k: K|
            if !second.contains_key(k) {
                first[k]
            } else if !first.contains_key(k) {
                second[k]
            } else {
                V::merged(first[k], second[k])
            },
    )
}

/// Takes every entry of `other` into `map`: a key that `map` does not hold is added, the value of
/// one that it holds takes in the other value.
pub fn merge_map<const N: usize, V: Mergeable>(map: &mut BytesMap<N, V>, other: BytesMap<N, V>)
    ensures
        views(final(map)@) == merged_maps::<[u8; N], V>(views(old(map)@), views(other@)),
{
    let ghost before = map@;
    let mut entries = map_into_entries(other);
    let ghost all = entries@;
    let ghost mut done: Set<[u8; N]> = Set::empty();
    while entries.len() > 0
        invariant
            enumerates(all, other@),
            entries@.len() <= all.len(),
            entries@ == all.take(entries@.len() as int),
            forall|k: [u8; N]| #[trigger]
                done.contains(k) <==> exists|i: int|
                    entries@.len() <= i < all.len() && (#[trigger] all[i]).0 == k,
            forall|k: [u8; N]| #[trigger]
                map@.contains_key(k) <==> before.contains_key(k) || done.contains(k),
            forall|k: [u8; N]| #[trigger]
                map@.contains_key(k) ==> map@[k]@ == (if !done.contains(k) {
                    before[k]@
                } else if !before.contains_key(k) {
                    other@[k]@
                } else {
                    V::merged(before[k]@, other@[k]@)
                }),
        decreases entries.len(),
    {
        let ghost n = entries@.len() - 1;
        let ghost map_before = map@;
        match entries.pop() {
            Some(entry) => {
                let (key, value) = entry;
                proof {
                    assert(all[n] == (key, value));
                    assert(other@.contains_key(all[n].0));
                    assert(!done.contains(key)) by {
                        if done.contains(key) {
                            let i = choose|i: int|
                                n + 1 <= i < all.len() && (#[trigger] all[i]).0 == key;
                            assert(all[n].0 != all[i].0);
                        }
                    }
                }
                let ghost given = value@;
                match map_remove(map, &key) {
                    Some(present) => {
                        assert(map_before.contains_key(key));
                        let mut present = present;
                        present.merge(value);
                        map_insert(map, key, present);
                    },
                    None => {
                        map_insert(map, key, value);
                    },
                }
                proof {
                    done = done.insert(key);
                    assert(entries@ =~= all.take(n));
                    assert forall|k: [u8; N]| #[trigger] done.contains(k) implies exists|i: int|
                        entries@.len() <= i < all.len() && (#[trigger] all[i]).0 == k by {
                        if k == key {
                            assert(all[n].0 == k);
                        }
                    }
                    assert forall|k: [u8; N]| #[trigger] map@.contains_key(k) implies map@[k]@ == (
                    if !done.contains(k) {
                        before[k]@
                    } else if !before.contains_key(k) {
                        other@[k]@
                    } else {
                        V::merged(before[k]@, other@[k]@)
                    }) by {
                        if k != key {
                            assert(map_before.contains_key(k));
                            assert(map@[k] == map_before[k]);
                        }
                    }
                }
            },
            None => {},
        }
    }
    proof {
        assert forall|k: [u8; N]| other@.contains_key(k) implies done.contains(k) by {
            let i = choose|i: int| 0 <= i < all.len() && (#[trigger] all[i]).0 == k;
            assert(all[i].0 == k);
        }
        assert forall|k: [u8; N]| done.contains(k) implies other@.contains_key(k) by {
            let i = choose|i: int| 0 <= i < all.len() && (#[trigger] all[i]).0 == k;
            assert(all[i].0 == k);
        }
        let merged = merged_maps::<[u8; N], V>(views(before), views(other@));
        assert(views(map@) =~= merged);
    }
}

} // verus!
