//! A map over either a borrowed array of slots or an owned tree map.
use crate::slots::{
    all_vacant, clear_slots, count_occupied, has_key, insert_slot, inserted, is_sorted_slots,
    key_index, occupied_count, pair_by_key, pair_mut_by_key, remove_slot, removed, slot_precedes,
    slots_vacant, value_of,
};
use std::collections::BTreeMap;
use vstd::laws_cmp::obeys_cmp;
use vstd::prelude::*;

verus! {

broadcast use vstd::std_specs::btree::group_btree_axioms;

/// A map that exclusively owns its storage, either by borrowing a caller's
/// fixed array of slots or by holding a heap-backed tree map. Which of the two
/// is fixed when the value is made.
#[derive(Debug)]
pub enum ManagedMap<'a, K, V> {
    /// Borrowed variant: a key-sorted array of optional key/value slots.
    Borrowed(&'a mut [Option<(K, V)>]),
    /// Owned variant: a tree map on the heap.
    Owned(BTreeMap<K, V>),
}

/// Relies on `BTreeMap::get_mut`: a handle on the value stored under `key`,
/// through which the entry is updated in place, or `None` when the key is
/// absent.
#[verifier::external_body]
fn tree_get_mut<'b, K: Ord, V>(tree: &'b mut BTreeMap<K, V>, key: &K) -> (r: Option<&'b mut V>)
    requires
        obeys_cmp::<K>(),
    ensures
        match r {
            Some(v) => {
                &&& old(tree)@.contains_key(*key)
                &&& *v == old(tree)@[*key]
                &&& final(tree)@ == old(tree)@.insert(*key, *final(v))
            },
            None => !old(tree)@.contains_key(*key) && final(tree)@ == old(tree)@,
        },
{
    tree.get_mut(key)
}

impl<'a, K, V> From<BTreeMap<K, V>> for ManagedMap<'a, K, V> {
    fn from(value: BTreeMap<K, V>) -> Self {
        ManagedMap::Owned(value)
    }
}

impl<'a, K, V> vstd::std_specs::convert::FromSpecImpl<BTreeMap<K, V>> for ManagedMap<'a, K, V> {
    open spec fn obeys_from_spec() -> bool {
        true
    }

    open spec fn from_spec(value: BTreeMap<K, V>) -> Self {
        ManagedMap::Owned(value)
    }
}

impl<'a, K: Ord, V> ManagedMap<'a, K, V> {
    /// The value borrows its slots.
    pub open spec fn is_borrowed(&self) -> bool {
        self is Borrowed
    }

    /// The borrowed slots, in order (empty for the owned variant).
    pub open spec fn slots(&self) -> Seq<Option<(K, V)>> {
        match self {
            ManagedMap::Borrowed(pairs) => pairs@,
            ManagedMap::Owned(_) => Seq::empty(),
        }
    }

    /// The owned map's entries (empty for the borrowed variant).
    pub open spec fn entries(&self) -> Map<K, V> {
        match self {
            ManagedMap::Borrowed(_) => Map::empty(),
            ManagedMap::Owned(tree) => tree@,
        }
    }

    /// Borrowed slots are sorted: occupied ones first, by strictly ascending
    /// key, then the empty ones.
    pub open spec fn wf(&self) -> bool {
        match self {
            ManagedMap::Borrowed(pairs) => is_sorted_slots(pairs@),
            ManagedMap::Owned(_) => true,
        }
    }

    /// Empties the map; borrowed slots keep their number.
    pub fn clear(&mut self)
        ensures
            final(self).is_borrowed() == old(self).is_borrowed(),
            final(self).wf(),
            old(self).is_borrowed() ==> final(self).slots().len() == old(self).slots().len()
                && all_vacant(final(self).slots()),
            !old(self).is_borrowed() ==> final(self).entries() == Map::<K, V>::empty(),
    {
        match self {
            ManagedMap::Borrowed(pairs) => {
                clear_slots(pairs);
            },
            ManagedMap::Owned(tree) => {
                tree.clear();
            },
        }
    }

    /// The value stored under a key equal to `key`, if any.
    pub fn get(&self, key: &K) -> (r: Option<&V>)
        requires
            obeys_cmp::<K>(),
            self.wf(),
        ensures
            self.is_borrowed() ==> match r {
                Some(v) => has_key(self.slots(), *key) && *v == value_of(self.slots(), *key),
                None => !has_key(self.slots(), *key),
            },
            !self.is_borrowed() ==> match r {
                Some(v) => self.entries().contains_key(*key) && *v == self.entries()[*key],
                None => !self.entries().contains_key(*key),
            },
    {
        match self {
            ManagedMap::Borrowed(pairs) => {
                match pair_by_key(pairs, key) {
                    Ok(pair) => Some(&pair.1),
                    Err(_) => None,
                }
            },
            ManagedMap::Owned(tree) => tree.get(key),
        }
    }

    /// Like `get`, handing out the value for update in place; the entry's
    /// key and position stay as they are.
    pub fn get_mut(&mut self, key: &K) -> (r: Option<&mut V>)
        requires
            obeys_cmp::<K>(),
            old(self).wf(),
        ensures
            final(self).is_borrowed() == old(self).is_borrowed(),
            final(self).wf(),
            old(self).is_borrowed() ==> match r {
                Some(v) => {
                    let s = old(self).slots();
                    let i = key_index(s, *key);
                    &&& has_key(s, *key)
                    &&& *v == value_of(s, *key)
                    &&& final(self).slots() == s.update(i, Some((s[i]->Some_0.0, *final(v))))
                },
                None => !has_key(old(self).slots(), *key) && final(self).slots() == old(self).slots(),
            },
            !old(self).is_borrowed() ==> match r {
                Some(v) => {
                    &&& old(self).entries().contains_key(*key)
                    &&& *v == old(self).entries()[*key]
                    &&& final(self).entries() == old(self).entries().insert(*key, *final(v))
                },
                None => !old(self).entries().contains_key(*key) && final(self).entries() == old(
                    self,
                ).entries(),
            },
    {
        match self {
            ManagedMap::Borrowed(pairs) => {
                let ghost s = pairs@;
                match pair_mut_by_key(pairs, key) {
                    Ok(pair) => {
                        proof {
                            let i = key_index(s, *key);
                            assert forall|v: V, a: int, b: int|
                                0 <= a < b < s.len() implies #[trigger] slot_precedes(
                                s.update(i, Some((s[i]->Some_0.0, v)))[a],
                                s.update(i, Some((s[i]->Some_0.0, v)))[b],
                            ) by {
                                assert(slot_precedes(s[a], s[b]));
                            }
                        }
                        Some(&mut pair.1)
                    },
                    Err(_) => None,
                }
            },
            ManagedMap::Owned(tree) => tree_get_mut(tree, key),
        }
    }

    /// Inserts `value` under `key`. A present key keeps its place and takes
    /// the new value, and the old one comes back in `Ok(Some(..))`. An absent
    /// key is added, with `Ok(None)`, unless the borrowed slots are all
    /// occupied: then nothing changes and the pair comes back in `Err`.
    pub fn insert(&mut self, key: K, value: V) -> (r: Result<Option<V>, (K, V)>)
        requires
            obeys_cmp::<K>(),
            old(self).wf(),
        ensures
            final(self).is_borrowed() == old(self).is_borrowed(),
            final(self).wf(),
            old(self).is_borrowed() ==> inserted(old(self).slots(), key, value, final(self).slots(), r),
            !old(self).is_borrowed() ==> {
                &&& final(self).entries() == old(self).entries().insert(key, value)
                &&& r == Ok::<Option<V>, (K, V)>(
                    if old(self).entries().contains_key(key) {
                        Some(old(self).entries()[key])
                    } else {
                        None
                    },
                )
            },
    {
        match self {
            ManagedMap::Borrowed(pairs) => insert_slot(pairs, key, value),
            ManagedMap::Owned(tree) => Ok(tree.insert(key, value)),
        }
    }

    /// Removes the entry whose key equals `key` and returns its value; an
    /// absent key changes nothing.
    pub fn remove(&mut self, key: &K) -> (r: Option<V>)
        requires
            obeys_cmp::<K>(),
            old(self).wf(),
        ensures
            final(self).is_borrowed() == old(self).is_borrowed(),
            final(self).wf(),
            old(self).is_borrowed() ==> removed(old(self).slots(), *key, final(self).slots(), r),
            !old(self).is_borrowed() ==> {
                &&& final(self).entries() == old(self).entries().remove(*key)
                &&& r == if old(self).entries().contains_key(*key) {
                    Some(old(self).entries()[*key])
                } else {
                    None
                }
            },
    {
        match self {
            ManagedMap::Borrowed(pairs) => remove_slot(pairs, key),
            ManagedMap::Owned(tree) => tree.remove(key),
        }
    }

    /// Whether the map holds no entry.
    pub fn is_empty(&self) -> (r: bool)
        ensures
            self.is_borrowed() ==> r == all_vacant(self.slots()),
            !self.is_borrowed() ==> r == self.entries().is_empty(),
    {
        match self {
            ManagedMap::Borrowed(pairs) => slots_vacant(pairs),
            ManagedMap::Owned(tree) => tree.is_empty(),
        }
    }

    /// The number of entries.
    pub fn len(&self) -> (r: usize)
        requires
            obeys_cmp::<K>(),
        ensures
            self.is_borrowed() ==> r == occupied_count(self.slots()),
            !self.is_borrowed() ==> r == self.entries().len(),
    {
        match self {
            ManagedMap::Borrowed(pairs) => count_occupied(pairs),
            ManagedMap::Owned(tree) => tree.len(),
        }
    }
}

} // verus!
