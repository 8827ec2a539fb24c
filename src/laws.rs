//! Laws that relate the slot operations to one another.
use crate::order::{key_eq, key_lt, lemma_key_order};
use crate::slots::{
    all_vacant, has_key, holds_key, inserted, insertion_point, is_full, is_insertion_point,
    is_sorted_slots, key_index, lemma_insertion_point_unique, lemma_key_index_unique,
    occupied_count, removed, slot_above, slot_below, slot_precedes, value_of,
};
use vstd::laws_cmp::obeys_cmp;
use vstd::prelude::*;

verus! {

/// Counting occupied slots distributes over concatenation.
pub proof fn lemma_count_concat<K, V>(a: Seq<Option<(K, V)>>, b: Seq<Option<(K, V)>>)
    ensures
        occupied_count(a + b) == occupied_count(a) + occupied_count(b),
    decreases b.len(),
{
    if b.len() == 0 {
        assert(a + b =~= a);
    } else {
        lemma_count_concat(a, b.drop_last());
        assert((a + b).drop_last() =~= a + b.drop_last());
    }
}

/// In sorted slots no two occupied slots hold keys that compare equal.
pub proof fn law_sorted_keys_distinct<K: Ord, V>(s: Seq<Option<(K, V)>>, i: int, j: int)
    requires
        obeys_cmp::<K>(),
        is_sorted_slots(s),
        0 <= i < j < s.len(),
        s[i] is Some,
        s[j] is Some,
    ensures
        !key_eq(s[i]->Some_0.0, s[j]->Some_0.0),
{
    lemma_key_order::<K>();
    assert(slot_precedes(s[i], s[j]));
}

/// An insertion that succeeds is seen by the lookup right after it: the key
/// is then present, with the inserted value.
pub proof fn law_insert_then_get<K: Ord, V>(
    s: Seq<Option<(K, V)>>,
    k: K,
    v: V,
    s2: Seq<Option<(K, V)>>,
    r: Result<Option<V>, (K, V)>,
)
    requires
        obeys_cmp::<K>(),
        is_sorted_slots(s),
        is_sorted_slots(s2),
        inserted(s, k, v, s2, r),
        r is Ok,
    ensures
        has_key(s2, k),
        value_of(s2, k) == v,
{
    lemma_key_order::<K>();
    if has_key(s, k) {
        let i = key_index(s, k);
        assert(holds_key(s[i], k));
        assert(holds_key(s2[i], k));
        lemma_key_index_unique(s2, k, i);
    } else {
        let w = lemma_insertion_point_exists(s, k);
        lemma_insertion_point_unique(s, k, w);
        let i = insertion_point(s, k);
        let n = s.len() as int;
        if i == n {
            assert(slot_below(s[n - 1], k));
        }
        assert(s2[i] == Some((k, v)));
        assert(holds_key(s2[i], k));
        lemma_key_index_unique(s2, k, i);
    }
}

/// Clearing leaves no entry: all-empty slots count zero.
pub proof fn law_cleared_counts_zero<K, V>(s: Seq<Option<(K, V)>>)
    requires
        all_vacant(s),
    ensures
        occupied_count(s) == 0,
    decreases s.len(),
{
    if s.len() > 0 {
        law_cleared_counts_zero(s.drop_last());
        assert(s.last() is None);
    }
}

/// Inserting a present key hands back its old value and keeps the count;
/// inserting an absent key while a slot is free hands back nothing and adds
/// exactly one to the count.
pub proof fn law_insert_count<K: Ord, V>(
    s: Seq<Option<(K, V)>>,
    k: K,
    v: V,
    s2: Seq<Option<(K, V)>>,
    r: Result<Option<V>, (K, V)>,
)
    requires
        obeys_cmp::<K>(),
        is_sorted_slots(s),
        inserted(s, k, v, s2, r),
        has_key(s, k) || !is_full(s),
    ensures
        has_key(s, k) ==> r == Ok::<Option<V>, (K, V)>(Some(value_of(s, k))) && occupied_count(s2)
            == occupied_count(s),
        !has_key(s, k) ==> r == Ok::<Option<V>, (K, V)>(None) && occupied_count(s2)
            == occupied_count(s) + 1,
{
    let n = s.len() as int;
    if has_key(s, k) {
        let i = key_index(s, k);
        assert(holds_key(s[i], k));
        let x = seq![s[i]];
        let y = seq![s2[i]];
        assert(s =~= s.take(i) + x + s.subrange(i + 1, n));
        assert(s2 =~= s.take(i) + y + s.subrange(i + 1, n));
        lemma_count_concat(s.take(i) + x, s.subrange(i + 1, n));
        lemma_count_concat(s.take(i), x);
        lemma_count_concat(s.take(i) + y, s.subrange(i + 1, n));
        lemma_count_concat(s.take(i), y);
        assert(x.drop_last() =~= Seq::<Option<(K, V)>>::empty());
        assert(y.drop_last() =~= Seq::<Option<(K, V)>>::empty());
    } else {
        let i = insertion_point(s, k);
        let w = lemma_insertion_point_exists(s, k);
        lemma_insertion_point_unique(s, k, w);
        let a = s.take(i);
        let b = s.subrange(i, n - 1);
        let last = seq![s[n - 1]];
        let x = seq![Some((k, v))];
        assert(s[n - 1] is None) by {
            let w = choose|j: int| 0 <= j < n && #[trigger] s[j] is None;
            if w < n - 1 {
                assert(slot_precedes(s[w], s[n - 1]));
            }
        }
        if i == n {
            assert(slot_below(s[n - 1], k));
        }
        assert(s =~= a + b + last);
        assert(s2 =~= a + x + b);
        lemma_count_concat(a + b, last);
        lemma_count_concat(a, b);
        lemma_count_concat(a + x, b);
        lemma_count_concat(a, x);
        assert(x.drop_last() =~= Seq::<Option<(K, V)>>::empty());
        assert(last.drop_last() =~= Seq::<Option<(K, V)>>::empty());
    }
}

/// Sorted slots have an insertion point for every key that no slot holds.
pub proof fn lemma_insertion_point_exists<K: Ord, V>(s: Seq<Option<(K, V)>>, k: K) -> (i: int)
    requires
        obeys_cmp::<K>(),
        is_sorted_slots(s),
        !has_key(s, k),
    ensures
        is_insertion_point(s, k, i),
    decreases s.len(),
{
    lemma_key_order::<K>();
    if s.len() == 0 {
        0
    } else {
        let n = s.len() as int;
        let p = s.drop_last();
        assert(is_sorted_slots(p)) by {
            assert forall|a: int, b: int| 0 <= a < b < p.len() implies #[trigger] slot_precedes(p[a], p[b]) by {
                assert(slot_precedes(s[a], s[b]));
            }
        }
        assert(!has_key(p, k)) by {
            if has_key(p, k) {
                let w = key_index(p, k);
                assert(holds_key(s[w], k));
            }
        }
        let j = lemma_insertion_point_exists(p, k);
        assert forall|t: int| 0 <= t < n - 1 implies p[t] == s[t] by {}
        let i = if j < n - 1 {
            assert(p[j] == s[j]);
            assert(slot_above(p[j], k));
            assert(slot_precedes(s[j], s[n - 1]));
            if s[n - 1] is Some {
                assert(key_lt(s[j]->Some_0.0, s[n - 1]->Some_0.0));
            }
            j
        } else if slot_below(s[n - 1], k) {
            n
        } else {
            assert(!holds_key(s[n - 1], k));
            n - 1
        };
        assert forall|t: int| 0 <= t < i implies #[trigger] slot_below(s[t], k) by {
            if t < n - 1 {
                assert(slot_below(p[t], k));
            }
        }
        assert forall|t: int| i <= t < n implies #[trigger] slot_above(s[t], k) by {
            if t < n - 1 {
                assert(slot_above(p[t], k));
            }
        }
        i
    }
}

/// With every slot occupied, inserting an absent key fails with the very
/// pair given and leaves the slots exactly as they were.
pub proof fn law_full_rejects<K: Ord, V>(
    s: Seq<Option<(K, V)>>,
    k: K,
    v: V,
    s2: Seq<Option<(K, V)>>,
    r: Result<Option<V>, (K, V)>,
)
    requires
        is_full(s),
        !has_key(s, k),
        inserted(s, k, v, s2, r),
    ensures
        r == Err::<Option<V>, (K, V)>((k, v)),
        s2 == s,
{
}

/// Removing a present key moves every later slot one place left and leaves
/// an empty slot at the end; removing an absent key changes nothing.
pub proof fn law_remove_shifts<K: Ord, V>(
    s: Seq<Option<(K, V)>>,
    k: K,
    s2: Seq<Option<(K, V)>>,
    r: Option<V>,
)
    requires
        removed(s, k, s2, r),
    ensures
        s2.len() == s.len(),
        has_key(s, k) ==> {
            let i = key_index(s, k);
            &&& forall|j: int| 0 <= j < i ==> s2[j] == s[j]
            &&& forall|j: int| i <= j < s.len() - 1 ==> s2[j] == s[j + 1]
            &&& s2[s.len() - 1] is None
        },
        !has_key(s, k) ==> s2 == s && r is None,
{
    if has_key(s, k) {
        let i = key_index(s, k);
        assert(0 <= i < s.len() && holds_key(s[i], k));
    }
}

} // verus!
