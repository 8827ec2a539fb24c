use managed::ManagedMap;
use std::collections::BTreeMap;

fn all_pairs_empty() -> [Option<(&'static str, u32)>; 4] {
    [None; 4]
}

fn one_pair_full() -> [Option<(&'static str, u32)>; 4] {
    [Some(("a", 1)), None, None, None]
}

fn all_pairs_full() -> [Option<(&'static str, u32)>; 4] {
    [Some(("a", 1)), Some(("b", 2)), Some(("c", 3)), Some(("d", 4))]
}

fn unwrap<'a, K, V>(map: &'a ManagedMap<'a, K, V>) -> &'a [Option<(K, V)>] {
    match map {
        &ManagedMap::Borrowed(ref map) => map,
        _ => unreachable!(),
    }
}

#[test]
fn test_clear() {
    let mut pairs = all_pairs_full();
    let mut map = ManagedMap::Borrowed(&mut pairs);
    map.clear();
    assert!(map.is_empty());
    assert_eq!(map.len(), 0);
    assert_eq!(unwrap(&map), all_pairs_empty());
}

#[test]
fn test_get_some() {
    let mut pairs = all_pairs_full();
    let map = ManagedMap::Borrowed(&mut pairs);
    assert_eq!(map.len(), 4);
    assert_eq!(map.get(&"a"), Some(&1));
    assert_eq!(map.get(&"b"), Some(&2));
    assert_eq!(map.get(&"c"), Some(&3));
    assert_eq!(map.get(&"d"), Some(&4));
}

#[test]
fn test_get_none() {
    let mut pairs = one_pair_full();
    let map = ManagedMap::Borrowed(&mut pairs);
    assert_eq!(map.len(), 1);
    assert!(!map.is_empty());
    assert_eq!(map.get(&"q"), None);
}

#[test]
fn test_get_mut_some() {
    let mut pairs = all_pairs_full();
    let mut map = ManagedMap::Borrowed(&mut pairs);
    assert_eq!(map.len(), 4);
    assert!(!map.is_empty());
    assert_eq!(map.get_mut(&"a"), Some(&mut 1));
    assert_eq!(map.get_mut(&"b"), Some(&mut 2));
    assert_eq!(map.get_mut(&"c"), Some(&mut 3));
    assert_eq!(map.get_mut(&"d"), Some(&mut 4));
}

#[test]
fn test_get_mut_none() {
    let mut pairs = one_pair_full();
    let mut map = ManagedMap::Borrowed(&mut pairs);
    assert_eq!(map.get_mut(&"q"), None);
}

#[test]
fn test_insert_empty() {
    let mut pairs = all_pairs_empty();
    let mut map = ManagedMap::Borrowed(&mut pairs);
    assert_eq!(map.len(), 0);
    assert!(map.is_empty());

    assert_eq!(map.insert("a", 1), Ok(None));
    assert_eq!(map.len(), 1);
    assert!(!map.is_empty());
    assert_eq!(unwrap(&map), [Some(("a", 1)), None, None, None]);
}

#[test]
fn test_insert_replace() {
    let mut pairs = all_pairs_empty();
    let mut map = ManagedMap::Borrowed(&mut pairs);
    assert_eq!(map.insert("a", 1), Ok(None));
    assert_eq!(map.insert("a", 2), Ok(Some(1)));
    assert_eq!(map.len(), 1);
    assert!(!map.is_empty());
    assert_eq!(unwrap(&map), [Some(("a", 2)), None, None, None]);
}

#[test]
fn test_insert_full() {
    let mut pairs = all_pairs_full();
    let mut map = ManagedMap::Borrowed(&mut pairs);
    assert_eq!(map.insert("q", 1), Err(("q", 1)));
    assert_eq!(map.len(), 4);
    assert_eq!(unwrap(&map), all_pairs_full());
}

#[test]
fn test_insert_one() {
    let mut pairs = one_pair_full();
    let mut map = ManagedMap::Borrowed(&mut pairs);
    assert_eq!(map.insert("b", 2), Ok(None));
    assert_eq!(unwrap(&map), [Some(("a", 1)), Some(("b", 2)), None, None]);
}

#[test]
fn test_insert_shift() {
    let mut pairs = one_pair_full();
    let mut map = ManagedMap::Borrowed(&mut pairs);
    assert_eq!(map.insert("c", 3), Ok(None));
    assert_eq!(map.insert("b", 2), Ok(None));
    assert_eq!(unwrap(&map), [Some(("a", 1)), Some(("b", 2)), Some(("c", 3)), None]);
}

#[test]
fn test_remove_nonexistent() {
    let mut pairs = one_pair_full();
    let mut map = ManagedMap::Borrowed(&mut pairs);
    assert_eq!(map.remove(&"b"), None);
    assert_eq!(map.len(), 1);
}

#[test]
fn test_remove_one() {
    let mut pairs = all_pairs_full();
    let mut map = ManagedMap::Borrowed(&mut pairs);
    assert_eq!(map.remove(&"a"), Some(1));
    assert_eq!(map.len(), 3);
    assert_eq!(unwrap(&map), [Some(("b", 2)), Some(("c", 3)), Some(("d", 4)), None]);
}

#[test]
fn scenario_insert_insert_remove_get() {
    let mut pairs = one_pair_full();
    let mut map = ManagedMap::Borrowed(&mut pairs);
    assert_eq!(map.insert("c", 3), Ok(None));
    assert_eq!(unwrap(&map), [Some(("a", 1)), Some(("c", 3)), None, None]);
    assert_eq!(map.insert("b", 2), Ok(None));
    assert_eq!(unwrap(&map), [Some(("a", 1)), Some(("b", 2)), Some(("c", 3)), None]);
    assert_eq!(map.remove(&"a"), Some(1));
    assert_eq!(unwrap(&map), [Some(("b", 2)), Some(("c", 3)), None, None]);
    assert_eq!(map.get(&"q"), None);
}

#[test]
fn insert_then_get_returns_value() {
    let mut pairs: [Option<(u32, u32)>; 3] = [None; 3];
    let mut map = ManagedMap::Borrowed(&mut pairs);
    assert_eq!(map.insert(7, 70), Ok(None));
    assert_eq!(map.get(&7), Some(&70));
    assert_eq!(map.insert(2, 20), Ok(None));
    assert_eq!(map.get(&2), Some(&20));
    assert_eq!(map.get(&7), Some(&70));
}

#[test]
fn clear_after_mixed_contents() {
    let mut pairs = [Some((1u32, 'x')), Some((5, 'y')), None];
    let mut map = ManagedMap::Borrowed(&mut pairs);
    map.clear();
    assert_eq!(map.len(), 0);
    assert!(map.is_empty());
    map.clear();
    assert_eq!(map.len(), 0);
    assert_eq!(unwrap(&map), [None, None, None]);
}

#[test]
fn replace_keeps_len_and_new_key_adds_one() {
    let mut pairs = one_pair_full();
    let mut map = ManagedMap::Borrowed(&mut pairs);
    assert_eq!(map.insert("a", 9), Ok(Some(1)));
    assert_eq!(map.len(), 1);
    assert_eq!(map.insert("z", 26), Ok(None));
    assert_eq!(map.len(), 2);
    assert_eq!(unwrap(&map), [Some(("a", 9)), Some(("z", 26)), None, None]);
}

#[test]
fn full_rejects_absent_key_of_any_order() {
    let mut pairs = all_pairs_full();
    let mut map = ManagedMap::Borrowed(&mut pairs);
    assert_eq!(map.insert("0", 0), Err(("0", 0)));
    assert_eq!(map.insert("bb", 5), Err(("bb", 5)));
    assert_eq!(unwrap(&map), all_pairs_full());
    assert_eq!(map.insert("b", 20), Ok(Some(2)));
}

#[test]
fn zero_capacity_rejects_every_insert() {
    let mut pairs: [Option<(u8, u8)>; 0] = [];
    let mut map = ManagedMap::Borrowed(&mut pairs);
    assert_eq!(map.insert(1, 1), Err((1, 1)));
    assert_eq!(map.len(), 0);
    assert!(map.is_empty());
    assert_eq!(map.get(&1), None);
    assert_eq!(map.remove(&1), None);
}

#[test]
fn remove_from_middle_shifts_left() {
    let mut pairs = all_pairs_full();
    let mut map = ManagedMap::Borrowed(&mut pairs);
    assert_eq!(map.remove(&"b"), Some(2));
    assert_eq!(unwrap(&map), [Some(("a", 1)), Some(("c", 3)), Some(("d", 4)), None]);
    assert_eq!(map.remove(&"b"), None);
    assert_eq!(unwrap(&map), [Some(("a", 1)), Some(("c", 3)), Some(("d", 4)), None]);
    assert_eq!(map.remove(&"d"), Some(4));
    assert_eq!(unwrap(&map), [Some(("a", 1)), Some(("c", 3)), None, None]);
}

#[test]
fn get_mut_updates_in_place() {
    let mut pairs = all_pairs_full();
    let mut map = ManagedMap::Borrowed(&mut pairs);
    if let Some(v) = map.get_mut(&"c") {
        *v = 30;
    }
    assert_eq!(map.get(&"c"), Some(&30));
    assert_eq!(unwrap(&map), [Some(("a", 1)), Some(("b", 2)), Some(("c", 30)), Some(("d", 4))]);
}

#[test]
fn insert_in_front_shifts_right() {
    let mut pairs = [Some((5u32, 50u32)), Some((9, 90)), None, None, None];
    let mut map = ManagedMap::Borrowed(&mut pairs);
    assert_eq!(map.insert(1, 10), Ok(None));
    assert_eq!(map.insert(7, 70), Ok(None));
    assert_eq!(
        unwrap(&map),
        [Some((1, 10)), Some((5, 50)), Some((7, 70)), Some((9, 90)), None]
    );
    assert_eq!(map.len(), 4);
}

#[test]
fn owned_variant_behaves_as_a_map() {
    let mut map: ManagedMap<u32, &str> = ManagedMap::Owned(BTreeMap::new());
    assert!(map.is_empty());
    assert_eq!(map.insert(3, "c"), Ok(None));
    assert_eq!(map.insert(1, "a"), Ok(None));
    assert_eq!(map.insert(3, "C"), Ok(Some("c")));
    assert_eq!(map.len(), 2);
    assert_eq!(map.get(&3), Some(&"C"));
    if let Some(v) = map.get_mut(&1) {
        *v = "A";
    }
    assert_eq!(map.get(&1), Some(&"A"));
    assert_eq!(map.get_mut(&2), None);
    assert_eq!(map.remove(&1), Some("A"));
    assert_eq!(map.remove(&1), None);
    map.clear();
    assert_eq!(map.len(), 0);
    assert!(map.is_empty());
}

#[test]
fn owned_variant_from_tree_map() {
    let mut tree = BTreeMap::new();
    tree.insert(2u32, 'b');
    let map: ManagedMap<u32, char> = ManagedMap::from(tree);
    assert_eq!(map.get(&2), Some(&'b'));
    assert_eq!(map.len(), 1);
}

#[test]
fn debug_names_the_variant() {
    let mut pairs = [Some(("a", 1u32)), None];
    let map = ManagedMap::Borrowed(&mut pairs);
    assert_eq!(format!("{:?}", map), "Borrowed([Some((\"a\", 1)), None])");
    let mut tree = BTreeMap::new();
    tree.insert(1u8, 2u8);
    let owned: ManagedMap<u8, u8> = ManagedMap::Owned(tree);
    assert_eq!(format!("{:?}", owned), "Owned({1: 2})");
}
