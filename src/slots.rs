//! A key-sorted array of optional key/value slots: its model, the search over
//! it and the in-place shifts that open and close a gap.
use crate::order::{key_eq, key_lt, lemma_key_order};
use std::cmp::Ordering;
use vstd::laws_cmp::obeys_cmp;
use vstd::prelude::*;
use vstd::std_specs::cmp::OrdSpec;

verus! {

/// Slot `a` may stand before slot `b`: an occupied slot precedes every empty
/// one, and occupied slots ascend strictly by key.
pub open spec fn slot_precedes<K: Ord, V>(a: Option<(K, V)>, b: Option<(K, V)>) -> bool {
    match b {
        None => true,
        Some(q) => match a {
            None => false,
            Some(p) => key_lt(p.0, q.0),
        },
    }
}

/// The storage invariant: occupied slots first, strictly ascending by key
/// (so no key twice), then the empty ones.
pub open spec fn is_sorted_slots<K: Ord, V>(s: Seq<Option<(K, V)>>) -> bool {
    forall|i: int, j: int| 0 <= i < j < s.len() ==> #[trigger] slot_precedes(s[i], s[j])
}

/// The slot is occupied by a key that compares equal to `k`.
pub open spec fn holds_key<K: Ord, V>(slot: Option<(K, V)>, k: K) -> bool {
    match slot {
        Some(p) => key_eq(p.0, k),
        None => false,
    }
}

/// The slot is occupied by a key below `k`.
pub open spec fn slot_below<K: Ord, V>(slot: Option<(K, V)>, k: K) -> bool {
    match slot {
        Some(p) => key_lt(p.0, k),
        None => false,
    }
}

/// The slot is empty or occupied by a key above `k`.
pub open spec fn slot_above<K: Ord, V>(slot: Option<(K, V)>, k: K) -> bool {
    match slot {
        Some(p) => key_lt(k, p.0),
        None => true,
    }
}

/// Some slot holds a key equal to `k`.
pub open spec fn has_key<K: Ord, V>(s: Seq<Option<(K, V)>>, k: K) -> bool {
    exists|i: int| 0 <= i < s.len() && #[trigger] holds_key(s[i], k)
}

/// The index of the slot that holds `k` (meaningful when `has_key(s, k)`).
pub open spec fn key_index<K: Ord, V>(s: Seq<Option<(K, V)>>, k: K) -> int {
    choose|i: int| 0 <= i < s.len() && #[trigger] holds_key(s[i], k)
}

/// The value stored under `k` (meaningful when `has_key(s, k)`).
pub open spec fn value_of<K: Ord, V>(s: Seq<Option<(K, V)>>, k: K) -> V {
    s[key_index(s, k)]->Some_0.1
}

/// `i` is where `k` would go to keep the slots sorted: every slot before it
/// holds a smaller key, every slot from it on is empty or holds a larger one.
pub open spec fn is_insertion_point<K: Ord, V>(s: Seq<Option<(K, V)>>, k: K, i: int) -> bool {
    &&& 0 <= i <= s.len()
    &&& forall|j: int| 0 <= j < i ==> #[trigger] slot_below(s[j], k)
    &&& forall|j: int| i <= j < s.len() ==> #[trigger] slot_above(s[j], k)
}

/// The number of occupied slots.
pub open spec fn occupied_count<K, V>(s: Seq<Option<(K, V)>>) -> nat
    decreases s.len(),
{
    if s.len() == 0 {
        0
    } else {
        occupied_count(s.drop_last()) + if s.last() is Some {
            1nat
        } else {
            0nat
        }
    }
}

/// Every slot is empty.
pub open spec fn all_vacant<K, V>(s: Seq<Option<(K, V)>>) -> bool {
    forall|i: int| 0 <= i < s.len() ==> #[trigger] s[i] is None
}

/// The index where `k` would be inserted (meaningful when one exists).
pub open spec fn insertion_point<K: Ord, V>(s: Seq<Option<(K, V)>>, k: K) -> int {
    choose|i: int| is_insertion_point(s, k, i)
}

/// Every slot is occupied.
pub open spec fn is_full<K, V>(s: Seq<Option<(K, V)>>) -> bool {
    forall|i: int| 0 <= i < s.len() ==> #[trigger] s[i] is Some
}

/// An insertion point is unique, so it is the one that `insertion_point`
/// names.
pub proof fn lemma_insertion_point_unique<K: Ord, V>(s: Seq<Option<(K, V)>>, k: K, i: int)
    requires
        obeys_cmp::<K>(),
        is_insertion_point(s, k, i),
    ensures
        insertion_point(s, k) == i,
{
    lemma_key_order::<K>();
    let j = insertion_point(s, k);
    assert(is_insertion_point(s, k, j));
    if j < i {
        assert(slot_below(s[j], k));
        assert(slot_above(s[j], k));
    } else if i < j {
        assert(slot_below(s[i], k));
        assert(slot_above(s[i], k));
    }
}

/// In sorted slots at most one slot holds a given key, so it is the one
/// that `key_index` names.
pub proof fn lemma_key_index_unique<K: Ord, V>(s: Seq<Option<(K, V)>>, k: K, i: int)
    requires
        obeys_cmp::<K>(),
        is_sorted_slots(s),
        0 <= i < s.len(),
        holds_key(s[i], k),
    ensures
        has_key(s, k),
        key_index(s, k) == i,
{
    lemma_key_order::<K>();
    let j = key_index(s, k);
    assert(holds_key(s[j], k));
    if j < i {
        assert(slot_precedes(s[j], s[i]));
    } else if i < j {
        assert(slot_precedes(s[i], s[j]));
    }
}

/// A key that has an insertion point is held by no slot.
pub proof fn lemma_insertion_point_absent<K: Ord, V>(s: Seq<Option<(K, V)>>, k: K, i: int)
    requires
        obeys_cmp::<K>(),
        is_insertion_point(s, k, i),
    ensures
        !has_key(s, k),
{
    lemma_key_order::<K>();
    if has_key(s, k) {
        let j = key_index(s, k);
        assert(holds_key(s[j], k));
        if j < i {
            assert(slot_below(s[j], k));
        } else {
            assert(slot_above(s[j], k));
        }
    }
}

/// Orders a slot against a key with absence sorting last: an occupied slot
/// compares by its key, an empty one is greater than every key.
pub fn compare_slot<K: Ord, V>(slot: &Option<(K, V)>, key: &K) -> (r: Ordering)
    requires
        obeys_cmp::<K>(),
    ensures
        match slot {
            Some(p) => r == p.0.cmp_spec(key),
            None => r == Ordering::Greater,
        },
{
    proof {
        lemma_key_order::<K>();
    }
    match slot {
        Some(p) => p.0.cmp(key),
        None => Ordering::Greater,
    }
}

/// Binary search of sorted slots for `key`: `Ok` with the index of the slot
/// that holds it, or `Err` with the index where it would be inserted.
pub fn binary_search_by_key<K: Ord, V>(slice: &[Option<(K, V)>], key: &K) -> (r: Result<usize, usize>)
    requires
        obeys_cmp::<K>(),
        is_sorted_slots(slice@),
    ensures
        match r {
            Ok(i) => i < slice@.len() && holds_key(slice@[i as int], *key),
            Err(i) => is_insertion_point(slice@, *key, i as int),
        },
{
    proof {
        lemma_key_order::<K>();
    }
    let ghost s = slice@;
    let mut lo: usize = 0;
    let mut hi: usize = slice.len();
    while lo < hi
        invariant
            s == slice@,
            obeys_cmp::<K>(),
            is_sorted_slots(s),
            0 <= lo <= hi <= s.len(),
            forall|j: int| 0 <= j < lo ==> #[trigger] slot_below(s[j], *key),
            forall|j: int| hi <= j < s.len() ==> #[trigger] slot_above(s[j], *key),
        decreases hi - lo,
    {
        proof {
            lemma_key_order::<K>();
        }
        let mid: usize = lo + (hi - lo) / 2;
        match compare_slot(&slice[mid], key) {
            Ordering::Less => {
                let ghost m = s[mid as int]->Some_0.0;
                assert(key_lt(m, *key));
                assert forall|j: int| 0 <= j <= mid implies #[trigger] slot_below(s[j], *key) by {
                    if j < mid {
                        assert(slot_precedes(s[j], s[mid as int]));
                        assert(key_lt(s[j]->Some_0.0, m));
                    }
                }
                lo = mid + 1;
            },
            Ordering::Equal => {
                return Ok(mid);
            },
            Ordering::Greater => {
                assert(slot_above(s[mid as int], *key));
                assert forall|j: int| mid <= j < s.len() implies #[trigger] slot_above(s[j], *key) by {
                    if j > mid {
                        assert(slot_precedes(s[mid as int], s[j]));
                    }
                }
                hi = mid;
            },
        }
    }
    Err(lo)
}

/// The outcome of inserting `(k, v)` into slots `s`, which become `s2`, with
/// result `r`. A present key keeps its slot and stored key and takes the new
/// value, handing back the old one; into full slots nothing goes and the pair
/// comes back; otherwise the pair takes its insertion point and the slots from
/// there move one place right over the last (empty) slot.
pub open spec fn inserted<K: Ord, V>(
    s: Seq<Option<(K, V)>>,
    k: K,
    v: V,
    s2: Seq<Option<(K, V)>>,
    r: Result<Option<V>, (K, V)>,
) -> bool {
    if has_key(s, k) {
        let i = key_index(s, k);
        &&& r == Ok::<Option<V>, (K, V)>(Some(value_of(s, k)))
        &&& s2 == s.update(i, Some((s[i]->Some_0.0, v)))
    } else if is_full(s) {
        &&& r == Err::<Option<V>, (K, V)>((k, v))
        &&& s2 == s
    } else {
        let i = insertion_point(s, k);
        &&& r == Ok::<Option<V>, (K, V)>(None)
        &&& s2 == s.take(i).push(Some((k, v))) + s.subrange(i, s.len() - 1)
    }
}

/// The outcome of removing `k` from slots `s`, which become `s2`, with result
/// `r`: the value comes out and the slots after it move one place left, with
/// an empty slot at the end; an absent key changes nothing.
pub open spec fn removed<K: Ord, V>(
    s: Seq<Option<(K, V)>>,
    k: K,
    s2: Seq<Option<(K, V)>>,
    r: Option<V>,
) -> bool {
    if has_key(s, k) {
        &&& r == Some(value_of(s, k))
        &&& s2 == s.remove(key_index(s, k)).push(None)
    } else {
        &&& r is None
        &&& s2 == s
    }
}

/// Looks up the pair whose key equals `key`: `Ok` with it, or `Err` with the
/// index where `key` would be inserted.
pub fn pair_by_key<'a, K: Ord, V>(slice: &'a [Option<(K, V)>], key: &K) -> (r: Result<&'a (K, V), usize>)
    requires
        obeys_cmp::<K>(),
        is_sorted_slots(slice@),
    ensures
        match r {
            Ok(p) => has_key(slice@, *key) && Some(*p) == slice@[key_index(slice@, *key)],
            Err(i) => !has_key(slice@, *key) && i == insertion_point(slice@, *key),
        },
{
    match binary_search_by_key(slice, key) {
        Ok(idx) => {
            proof {
                lemma_key_index_unique(slice@, *key, idx as int);
            }
            match &slice[idx] {
                Some(p) => Ok(p),
                // The search found the key in this slot, so it is occupied.
                None => Err(idx),
            }
        },
        Err(idx) => {
            proof {
                lemma_insertion_point_absent(slice@, *key, idx as int);
                lemma_insertion_point_unique(slice@, *key, idx as int);
            }
            Err(idx)
        },
    }
}

/// Like `pair_by_key`, handing out the pair for update in place.
pub fn pair_mut_by_key<'a, K: Ord, V>(slice: &'a mut [Option<(K, V)>], key: &K) -> (r: Result<&'a mut (K, V), usize>)
    requires
        obeys_cmp::<K>(),
        is_sorted_slots(old(slice)@),
    ensures
        match r {
            Ok(p) => {
                &&& has_key(old(slice)@, *key)
                &&& Some(*p) == old(slice)@[key_index(old(slice)@, *key)]
                &&& final(slice)@ == old(slice)@.update(key_index(old(slice)@, *key), Some(*final(p)))
            },
            Err(i) => {
                &&& !has_key(old(slice)@, *key)
                &&& i == insertion_point(old(slice)@, *key)
                &&& final(slice)@ == old(slice)@
            },
        },
{
    match binary_search_by_key(slice, key) {
        Ok(idx) => {
            proof {
                lemma_key_index_unique(slice@, *key, idx as int);
            }
            match &mut slice[idx] {
                Some(p) => Ok(p),
                // The search found the key in this slot, so it is occupied.
                None => Err(idx),
            }
        },
        Err(idx) => {
            proof {
                lemma_insertion_point_absent(slice@, *key, idx as int);
                lemma_insertion_point_unique(slice@, *key, idx as int);
            }
            Err(idx)
        },
    }
}

/// Moves the slots `from..len - 1` one place to the right, into the empty
/// last slot, which leaves slot `from` empty.
pub fn shift_right_from<T>(slice: &mut [Option<T>], from: usize)
    requires
        from < old(slice)@.len(),
        old(slice)@.last() is None,
    ensures
        final(slice)@ == old(slice)@.take(from as int).push(None) + old(slice)@.subrange(
            from as int,
            old(slice)@.len() - 1,
        ),
{
    let ghost o = slice@;
    let n: usize = slice.len();
    let mut j: usize = n - 1;
    while j > from
        invariant
            n == o.len(),
            slice@.len() == n,
            from <= j < n,
            slice@[j as int] is None,
            forall|t: int| 0 <= t < j ==> slice@[t] == o[t],
            forall|t: int| j < t < n ==> slice@[t] == o[t - 1],
        decreases j,
    {
        let x = slice[j - 1].take();
        slice[j] = x;
        j = j - 1;
    }
    assert(slice@ =~= o.take(from as int).push(None) + o.subrange(from as int, n - 1));
}

/// Moves the slots after the empty slot `from` one place to the left, which
/// carries the empty slot to the end.
pub fn shift_left_from<T>(slice: &mut [Option<T>], from: usize)
    requires
        from < old(slice)@.len(),
        old(slice)@[from as int] is None,
    ensures
        final(slice)@ == old(slice)@.remove(from as int).push(None),
{
    let ghost o = slice@;
    let n: usize = slice.len();
    let mut j: usize = from;
    while j + 1 < n
        invariant
            n == o.len(),
            slice@.len() == n,
            from <= j < n,
            slice@[j as int] is None,
            forall|t: int| 0 <= t < from ==> slice@[t] == o[t],
            forall|t: int| from <= t < j ==> slice@[t] == o[t + 1],
            forall|t: int| j < t < n ==> slice@[t] == o[t],
        decreases n - j,
    {
        let x = slice[j + 1].take();
        slice[j] = x;
        j = j + 1;
    }
    assert(slice@ =~= o.remove(from as int).push(None));
}

/// Inserts `(key, value)` into sorted slots, keeping them sorted.
pub fn insert_slot<K: Ord, V>(slice: &mut [Option<(K, V)>], key: K, value: V) -> (r: Result<Option<V>, (K, V)>)
    requires
        obeys_cmp::<K>(),
        is_sorted_slots(old(slice)@),
    ensures
        inserted(old(slice)@, key, value, final(slice)@, r),
        is_sorted_slots(final(slice)@),
{
    let ghost o = slice@;
    proof {
        lemma_key_order::<K>();
    }
    match binary_search_by_key(slice, &key) {
        Ok(idx) => {
            proof {
                lemma_key_index_unique(o, key, idx as int);
            }
            let found = slice[idx].take();
            match found {
                Some(pair) => {
                    let (stored, prior) = pair;
                    slice[idx] = Some((stored, value));
                    proof {
                        assert(slice@ =~= o.update(idx as int, Some((o[idx as int]->Some_0.0, value))));
                        assert forall|a: int, b: int| 0 <= a < b < o.len() implies #[trigger] slot_precedes(
                            slice@[a],
                            slice@[b],
                        ) by {
                            assert(slot_precedes(o[a], o[b]));
                        }
                    }
                    Ok(Some(prior))
                },
                // The search found the key in this slot, so it is occupied.
                None => Err((key, value)),
            }
        },
        Err(idx) => {
            proof {
                lemma_insertion_point_absent(o, key, idx as int);
                lemma_insertion_point_unique(o, key, idx as int);
            }
            let n: usize = slice.len();
            if n == 0 || slice[n - 1].is_some() {
                proof {
                    assert forall|i: int| 0 <= i < n implies #[trigger] o[i] is Some by {
                        if i < n - 1 {
                            assert(slot_precedes(o[i], o[n - 1]));
                        }
                    }
                }
                return Err((key, value));
            }
            proof {
                if idx == n {
                    assert(slot_below(o[n - 1], key));
                }
                assert(!is_full(o)) by {
                    assert(o[n - 1] is None);
                }
            }
            shift_right_from(slice, idx);
            slice[idx] = Some((key, value));
            proof {
                let s2 = slice@;
                assert(s2 =~= o.take(idx as int).push(Some((key, value))) + o.subrange(idx as int, n - 1));
                assert forall|a: int, b: int| 0 <= a < b < n implies #[trigger] slot_precedes(s2[a], s2[b]) by {
                    if b < idx {
                        assert(slot_precedes(o[a], o[b]));
                    } else if b == idx {
                        assert(slot_below(o[a], key));
                    } else if a == idx {
                        assert(slot_above(o[b - 1], key));
                    } else if a < idx {
                        assert(slot_precedes(o[a], o[b - 1]));
                    } else {
                        assert(slot_precedes(o[a - 1], o[b - 1]));
                    }
                }
            }
            Ok(None)
        },
    }
}

/// Removes the pair whose key equals `key` from sorted slots, keeping them
/// sorted.
pub fn remove_slot<K: Ord, V>(slice: &mut [Option<(K, V)>], key: &K) -> (r: Option<V>)
    requires
        obeys_cmp::<K>(),
        is_sorted_slots(old(slice)@),
    ensures
        removed(old(slice)@, *key, final(slice)@, r),
        is_sorted_slots(final(slice)@),
{
    let ghost o = slice@;
    match binary_search_by_key(slice, key) {
        Ok(idx) => {
            proof {
                lemma_key_index_unique(o, *key, idx as int);
            }
            let found = slice[idx].take();
            shift_left_from(slice, idx);
            proof {
                assert(found == o[idx as int]);
                assert(slice@ =~= o.remove(idx as int).push(None));
                let s2 = slice@;
                let n = o.len();
                assert forall|a: int, b: int| 0 <= a < b < n implies #[trigger] slot_precedes(s2[a], s2[b]) by {
                    if b == n - 1 {
                    } else if a < idx && b < idx {
                        assert(slot_precedes(o[a], o[b]));
                    } else if a < idx {
                        assert(slot_precedes(o[a], o[b + 1]));
                    } else {
                        assert(slot_precedes(o[a + 1], o[b + 1]));
                    }
                }
            }
            match found {
                Some(pair) => Some(pair.1),
                None => None,
            }
        },
        Err(idx) => {
            proof {
                lemma_insertion_point_absent(o, *key, idx as int);
            }
            None
        },
    }
}

/// Empties every slot.
pub fn clear_slots<K, V>(slice: &mut [Option<(K, V)>])
    ensures
        final(slice)@.len() == old(slice)@.len(),
        all_vacant(final(slice)@),
{
    let n: usize = slice.len();
    let mut i: usize = 0;
    while i < n
        invariant
            slice@.len() == n,
            i <= n,
            forall|t: int| 0 <= t < i ==> #[trigger] slice@[t] is None,
        decreases n - i,
    {
        slice[i] = None;
        i = i + 1;
    }
}

/// Counts the occupied slots.
pub fn count_occupied<K, V>(slice: &[Option<(K, V)>]) -> (r: usize)
    ensures
        r == occupied_count(slice@),
{
    let ghost s = slice@;
    let n: usize = slice.len();
    let mut count: usize = 0;
    let mut i: usize = 0;
    while i < n
        invariant
            s == slice@,
            n == s.len(),
            i <= n,
            count <= i,
            count == occupied_count(s.take(i as int)),
        decreases n - i,
    {
        assert(s.take(i + 1).drop_last() =~= s.take(i as int));
        if slice[i].is_some() {
            count = count + 1;
        }
        i = i + 1;
    }
    assert(s.take(n as int) =~= s);
    count
}

/// Tells whether every slot is empty, stopping at the first occupied one.
pub fn slots_vacant<K, V>(slice: &[Option<(K, V)>]) -> (r: bool)
    ensures
        r == all_vacant(slice@),
{
    let n: usize = slice.len();
    let mut i: usize = 0;
    while i < n
        invariant
            n == slice@.len(),
            i <= n,
            forall|t: int| 0 <= t < i ==> #[trigger] slice@[t] is None,
        decreases n - i,
    {
        if slice[i].is_some() {
            return false;
        }
        i = i + 1;
    }
    true
}

} // verus!
